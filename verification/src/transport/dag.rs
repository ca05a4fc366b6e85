//! Causal DAG over envelope hashes.
//!
//! A span signed at a volatile resource is superseded when a later Effect on
//! the same resource is visible at the claim. "Later" and "visible" are both
//! causal, so the question is one of ancestry in a directed acyclic graph of
//! envelopes. Capacity is fixed; an insert past capacity is an error.
//! Ancestry uses an explicit work queue and a visited bitmap, never
//! recursion.
//!
//! The graph's meaning is `edges()`: for each node index, the indices of its
//! parents. A path follows parent links from a descendant to an ancestor.

use vstd::prelude::*;
use crate::codec::bytes_eq;

verus! {

pub const NODE_BYTES: usize = 32;

pub type Node = [u8; NODE_BYTES];

pub const MAX_NODES: usize = 128;
pub const MAX_PARENTS: usize = 8;

#[derive(Debug, Clone, Copy, PartialEq, Eq, Structural)]
pub enum DagError {
    Overflow,
    Cyclic,
    NotNode,
}

// --- paths -------------------------------------------------------------------

/// `p` is a parent of `c`.
pub open spec fn edge(e: Seq<Seq<u16>>, c: int, p: int) -> bool {
    0 <= c < e.len() && exists|k: int| 0 <= k < e[c].len() && e[c][k] == p
}

/// Step `i` of `w` follows a parent link.
pub open spec fn step_ok(e: Seq<Seq<u16>>, w: Seq<int>, i: int) -> bool {
    edge(e, w[i], w[i + 1])
}

/// `w` is a walk along parent links: each node's successor is its parent.
pub open spec fn walk(e: Seq<Seq<u16>>, w: Seq<int>) -> bool {
    w.len() >= 1 && forall|i: int| 0 <= i < w.len() - 1 ==> #[trigger] step_ok(e, w, i)
}

/// Some walk leads from `d` to `v`.
pub open spec fn reaches(e: Seq<Seq<u16>>, d: int, v: int) -> bool {
    exists|w: Seq<int>| #[trigger] walk(e, w) && w[0] == d && w.last() == v
}

/// `a` is a proper ancestor of `d`.
pub open spec fn ancestor(e: Seq<Seq<u16>>, a: int, d: int) -> bool {
    a != d && reaches(e, d, a)
}

/// No walk of one or more links returns to where it started.
pub open spec fn acyclic(e: Seq<Seq<u16>>) -> bool {
    forall|w: Seq<int>| #[trigger] walk(e, w) && w.len() >= 2 ==> w[0] != w.last()
}

pub proof fn lemma_walk_extend(e: Seq<Seq<u16>>, w: Seq<int>, v: int)
    requires
        walk(e, w),
        edge(e, w.last(), v),
    ensures
        walk(e, w.push(v)),
{
    let w2 = w.push(v);
    assert forall|i: int| 0 <= i < w2.len() - 1 implies #[trigger] step_ok(e, w2, i) by {
        if i < w.len() - 1 {
            assert(step_ok(e, w, i));
        }
    }
}

pub proof fn lemma_walk_concat(e: Seq<Seq<u16>>, w1: Seq<int>, w2: Seq<int>)
    requires
        walk(e, w1),
        walk(e, w2),
        w1.last() == w2[0],
    ensures
        walk(e, w1 + w2.drop_first()),
        (w1 + w2.drop_first())[0] == w1[0],
        (w1 + w2.drop_first()).last() == w2.last(),
        (w1 + w2.drop_first()).len() == w1.len() + w2.len() - 1,
{
    let w = w1 + w2.drop_first();
    assert forall|i: int| 0 <= i < w.len() - 1 implies #[trigger] step_ok(e, w, i) by {
        if i < w1.len() - 1 {
            assert(step_ok(e, w1, i));
        } else {
            let j = i - (w1.len() - 1);
            assert(step_ok(e, w2, j));
            assert(w[i] == w2[j]);
            assert(w[i + 1] == w2[j + 1]);
        }
    }
}

/// The sub-walk `w[lo..hi]` is a walk.
pub proof fn lemma_walk_sub(e: Seq<Seq<u16>>, w: Seq<int>, lo: int, hi: int)
    requires
        walk(e, w),
        0 <= lo < hi <= w.len(),
    ensures
        walk(e, w.subrange(lo, hi)),
{
    let s = w.subrange(lo, hi);
    assert forall|i: int| 0 <= i < s.len() - 1 implies #[trigger] step_ok(e, s, i) by {
        assert(step_ok(e, w, lo + i));
    }
}

/// The first step at or after `i` that is not a link of `e`, or the last
/// index when every step from `i` on is one.
proof fn first_new_step(e: Seq<Seq<u16>>, w: Seq<int>, i: int) -> (j: int)
    requires
        0 <= i < w.len(),
    ensures
        i <= j < w.len(),
        forall|k: int| i <= k < j ==> #[trigger] step_ok(e, w, k),
        j < w.len() - 1 ==> !step_ok(e, w, j),
    decreases w.len() - i,
{
    if i == w.len() - 1 || !step_ok(e, w, i) {
        i
    } else {
        first_new_step(e, w, i + 1)
    }
}

/// The last step before `i` that is not a link of `e`, or -1.
proof fn last_new_step(e: Seq<Seq<u16>>, w: Seq<int>, i: int) -> (j: int)
    requires
        0 <= i < w.len(),
    ensures
        -1 <= j < i,
        forall|k: int| j < k < i ==> #[trigger] step_ok(e, w, k),
        j >= 0 ==> !step_ok(e, w, j),
    decreases i,
{
    if i == 0 {
        -1
    } else if !step_ok(e, w, i - 1) {
        i - 1
    } else {
        last_new_step(e, w, i - 1)
    }
}

/// A walk in the graph with the link `c -> p` added either is a walk of the
/// old graph or passes through the new link: its start reaches `c` and `p`
/// reaches its end, in the old graph.
proof fn lemma_walk_with_edge(e: Seq<Seq<u16>>, c: int, p: int, w: Seq<int>)
    requires
        0 <= c < e.len(),
        0 <= p < 65536,
        walk(e.update(c, e[c].push(p as u16)), w),
    ensures
        walk(e, w) || (reaches(e, w[0], c) && reaches(e, p, w.last())),
{
    let e2 = e.update(c, e[c].push(p as u16));
    let j = first_new_step(e, w, 0);
    if j < w.len() - 1 {
        let l = last_new_step(e, w, w.len() - 1);
        assert(step_ok(e2, w, j));
        assert(step_ok(e2, w, l));
        // A step of the new graph that is no step of the old one is `c -> p`.
        assert forall|k: int| 0 <= k < w.len() - 1 && #[trigger] step_ok(e2, w, k) && !step_ok(e, w, k) implies w[k] == c && w[k + 1] == p by {
            let kk = choose|kk: int| 0 <= kk < e2[w[k]].len() && e2[w[k]][kk] == w[k + 1];
            if w[k] != c || kk < e[c].len() {
                assert(e[w[k]][kk] == w[k + 1]);
                assert(edge(e, w[k], w[k + 1]));
            }
        }
        let pre = w.subrange(0, j + 1);
        assert forall|i: int| 0 <= i < pre.len() - 1 implies #[trigger] step_ok(e, pre, i) by {
            assert(step_ok(e, w, i));
        }
        assert(walk(e, pre) && pre[0] == w[0] && pre.last() == c);
        let suf = w.subrange(l + 1, w.len() as int);
        assert forall|i: int| 0 <= i < suf.len() - 1 implies #[trigger] step_ok(e, suf, i) by {
            assert(step_ok(e, w, l + 1 + i));
        }
        assert(walk(e, suf) && suf[0] == p && suf.last() == w.last());
    } else {
        assert forall|i: int| 0 <= i < w.len() - 1 implies #[trigger] step_ok(e, w, i) by {}
    }
}

// --- the DAG ----------------------------------------------------------------------

/// Interning `h`: the node list unchanged when `h` is there, `h` appended
/// when there is room, else nothing (the table is full).
pub open spec fn intern_spec(nodes: Seq<Seq<u8>>, h: Seq<u8>) -> Option<Seq<Seq<u8>>> {
    if nodes.contains(h) {
        Some(nodes)
    } else if nodes.len() < MAX_NODES {
        Some(nodes.push(h))
    } else {
        None
    }
}

/// What inserting the edge child -> parent does to (nodes, edges): the
/// result, the node list and the edges afterwards. A self-loop is Cyclic
/// with nothing changed; the parent, then the child, are interned (Overflow
/// when the node table is full, keeping what was interned); an edge that
/// would close a cycle is Cyclic; a present edge is Ok with nothing more
/// changed; a child that has MAX_PARENTS parents already is Overflow; else
/// the edge is added.
pub open spec fn insert_spec(nodes: Seq<Seq<u8>>, e: Seq<Seq<u16>>, parent: Seq<u8>, child: Seq<u8>) -> (
    Result<(), DagError>,
    Seq<Seq<u8>>,
    Seq<Seq<u16>>,
) {
    if parent == child {
        (Err(DagError::Cyclic), nodes, e)
    } else {
        match intern_spec(nodes, parent) {
            None => (Err(DagError::Overflow), nodes, e),
            Some(n1) => match intern_spec(n1, child) {
                None => (Err(DagError::Overflow), n1, e),
                Some(n2) => {
                    let p = n2.index_of(parent);
                    let c = n2.index_of(child);
                    if ancestor(e, c, p) {
                        (Err(DagError::Cyclic), n2, e)
                    } else if edge(e, c, p) {
                        (Ok(()), n2, e)
                    } else if e[c].len() >= MAX_PARENTS {
                        (Err(DagError::Overflow), n2, e)
                    } else {
                        (Ok(()), n2, e.update(c, e[c].push(p as u16)))
                    }
                },
            },
        }
    }
}

pub struct Dag {
    nodes: [[u8; NODE_BYTES]; MAX_NODES],
    node_count: usize,
    parents: [[u16; MAX_PARENTS]; MAX_NODES],
    parent_count: [u8; MAX_NODES],
    visited: [bool; MAX_NODES],
    queue: [u16; MAX_NODES],
}

/// How many entries of `s` are true.
pub open spec fn count_true(s: Seq<bool>) -> nat
    decreases s.len(),
{
    if s.len() == 0 {
        0
    } else {
        count_true(s.drop_last()) + if s.last() {
            1nat
        } else {
            0nat
        }
    }
}

proof fn lemma_count_true_bound(s: Seq<bool>)
    ensures
        count_true(s) <= s.len(),
    decreases s.len(),
{
    if s.len() > 0 {
        lemma_count_true_bound(s.drop_last());
    }
}

proof fn lemma_count_true_set(s: Seq<bool>, i: int)
    requires
        0 <= i < s.len(),
        !s[i],
    ensures
        count_true(s.update(i, true)) == count_true(s) + 1,
    decreases s.len(),
{
    if i < s.len() - 1 {
        lemma_count_true_set(s.drop_last(), i);
        assert(s.update(i, true).drop_last() =~= s.drop_last().update(i, true));
    } else {
        assert(s.update(i, true).drop_last() =~= s.drop_last());
    }
}

proof fn lemma_count_true_zero(s: Seq<bool>)
    requires
        forall|i: int| 0 <= i < s.len() ==> !s[i],
    ensures
        count_true(s) == 0,
    decreases s.len(),
{
    if s.len() > 0 {
        lemma_count_true_zero(s.drop_last());
    }
}

impl Dag {
    /// The interned node hashes, in order of first appearance.
    pub closed spec fn node_list(&self) -> Seq<Seq<u8>> {
        self.nodes@.subrange(0, self.node_count as int).map_values(|n: [u8; NODE_BYTES]| n@)
    }

    /// For every node slot, the indices of its parents.
    pub closed spec fn edges(&self) -> Seq<Seq<u16>> {
        Seq::new(
            MAX_NODES as nat,
            |i: int| self.parents@[i]@.subrange(0, self.parent_count@[i] as int),
        )
    }

    /// The invariant: nodes are distinct; only interned nodes have parents,
    /// at most MAX_PARENTS each, all interned; the graph is acyclic; the
    /// scratch bitmap is clear between calls.
    pub closed spec fn wf(&self) -> bool {
        &&& self.node_count <= MAX_NODES
        &&& forall|i: int, j: int|
            0 <= i < j < self.node_count ==> (#[trigger] self.nodes@[i])@ != (#[trigger] self.nodes@[j])@
        &&& forall|i: int| 0 <= i < MAX_NODES ==> #[trigger] self.parent_count@[i] <= MAX_PARENTS
        &&& forall|i: int| self.node_count <= i < MAX_NODES ==> #[trigger] self.parent_count@[i] == 0
        &&& forall|i: int, k: int|
            0 <= i < MAX_NODES && 0 <= k < self.parent_count@[i] ==> #[trigger] self.parents@[i]@[k]
                < self.node_count
        &&& forall|i: int| 0 <= i < MAX_NODES ==> !#[trigger] self.visited@[i]
        &&& acyclic(self.edges())
    }

    pub fn new() -> (d: Self)
        ensures
            d.wf(),
            d.node_list() == Seq::<Seq<u8>>::empty(),
            forall|i: int| 0 <= i < MAX_NODES ==> #[trigger] d.edges()[i] == Seq::<u16>::empty(),
    {
        let d = Self {
            nodes: [[0u8;32];128],
            node_count: 0,
            parents: [[0u16;8];128],
            parent_count: [0u8;128],
            visited: [false;128],
            queue: [0u16;128],
        };
        proof {
            assert forall|w: Seq<int>| #[trigger] walk(d.edges(), w) && w.len() >= 2 implies w[0]
                != w.last() by {
                assert(step_ok(d.edges(), w, 0));
                assert(d.edges()[w[0]].len() == 0);
            }
            assert(d.node_list() =~= Seq::<Seq<u8>>::empty());
        }
        d
    }

    /// The index of a node, if interned.
    pub fn index_of(&self, hash: &Node) -> (r: Option<u16>)
        requires
            self.wf(),
        ensures
            match r {
                Some(i) => i < self.node_list().len() && self.node_list()[i as int] == hash@,
                None => forall|i: int|
                    0 <= i < self.node_list().len() ==> #[trigger] self.node_list()[i] != hash@,
            },
    {
        let mut i: usize = 0;
        while i < self.node_count
            invariant
                self.wf(),
                i <= self.node_count,
                forall|k: int| 0 <= k < i ==> #[trigger] self.node_list()[k] != hash@,
            decreases self.node_count - i,
        {
            if bytes_eq(self.nodes[i].as_slice(), hash.as_slice()) {
                return Some(i as u16);
            }
            assert(self.node_list()[i as int] == self.nodes@[i as int]@);
            i = i + 1;
        }
        None
    }

    pub fn contains(&self, hash: &Node) -> (b: bool)
        requires
            self.wf(),
        ensures
            b == self.node_list().contains(hash@),
    {
        match self.index_of(hash) {
            Some(i) => {
                assert(self.node_list()[i as int] == hash@);
                true
            },
            None => false,
        }
    }

    /// Adds a node if absent and returns its index.
    fn intern(&mut self, hash: &Node) -> (r: Result<u16, DagError>)
        requires
            old(self).wf(),
        ensures
            final(self).wf(),
            final(self).edges() == old(self).edges(),
            match r {
                Ok(i) => i < final(self).node_list().len() && final(self).node_list()[i as int]
                    == hash@ && (old(self).node_list().contains(hash@) ==> final(self).node_list()
                    == old(self).node_list()) && (!old(self).node_list().contains(hash@)
                    ==> final(self).node_list() == old(self).node_list().push(hash@)),
                Err(e) => e == DagError::Overflow && !old(self).node_list().contains(hash@)
                    && old(self).node_list().len() >= MAX_NODES && *final(self) == *old(self),
            },
    {
        match self.index_of(hash) {
            Some(idx) => {
                return Ok(idx);
            },
            None => {},
        }
        if self.node_count >= MAX_NODES {
            return Err(DagError::Overflow);
        }
        let idx = self.node_count;
        self.nodes[idx] = *hash;
        self.node_count = self.node_count + 1;
        proof {
            assert(self.edges() =~= old(self).edges());
            assert(self.node_list() =~= old(self).node_list().push(hash@));
            assert forall|i: int, j: int|
                0 <= i < j < self.node_count implies (#[trigger] self.nodes@[i])@ != (
                #[trigger] self.nodes@[j])@ by {
                if j == idx {
                    assert(self.nodes@[i]@ == old(self).node_list()[i]);
                }
            }
        }
        Ok(idx as u16)
    }

    /// Record that `child` causally depends on `parent`. Self-loops and
    /// cycle-closing edges are refused; repeating an edge changes nothing.
    #[verifier::loop_isolation(false)]
    pub fn insert(&mut self, parent: &Node, child: &Node) -> (r: Result<(), DagError>)
        requires
            old(self).wf(),
        ensures
            final(self).wf(),
            r is Ok ==> {
                let p = final(self).node_list().index_of(parent@);
                let c = final(self).node_list().index_of(child@);
                &&& final(self).node_list().contains(parent@)
                &&& final(self).node_list().contains(child@)
                &&& edge(final(self).edges(), c, p)
                &&& forall|x: int, y: int|
                    edge(old(self).edges(), x, y) ==> #[trigger] edge(final(self).edges(), x, y)
                &&& forall|x: int, y: int|
                    #[trigger] edge(final(self).edges(), x, y) ==> edge(old(self).edges(), x, y) || (x
                        == c && y == p)
            },
            parent@ == child@ ==> r == Err::<(), DagError>(DagError::Cyclic) && *final(self) == *old(self),
            r == Err::<(), DagError>(DagError::Cyclic) ==> final(self).edges() == old(self).edges(),
            r == Err::<(), DagError>(DagError::Overflow) ==> final(self).edges() == old(self).edges(),
            (old(self).node_list().contains(parent@) && old(self).node_list().contains(child@)
                && parent@ != child@) ==> (r == Err::<(), DagError>(DagError::Cyclic) <==> ancestor(
                old(self).edges(),
                old(self).node_list().index_of(child@),
                old(self).node_list().index_of(parent@),
            )),
            forall|i: int|
                0 <= i < old(self).node_list().len() ==> #[trigger] final(self).node_list()[i] == old(
                    self,
                ).node_list()[i],
            (r, final(self).node_list(), final(self).edges()) == insert_spec(
                old(self).node_list(),
                old(self).edges(),
                parent@,
                child@,
            ),
    {
        if bytes_eq(parent.as_slice(), child.as_slice()) {
            return Err(DagError::Cyclic);
        }
        let ghost n0 = self.node_list();
        let ghost e0 = self.edges();
        let pidx = match self.intern(parent) {
            Ok(i) => i,
            Err(e) => return Err(e),
        };
        let ghost n1 = self.node_list();
        assert(intern_spec(n0, parent@) == Some(n1));
        let cidx = match self.intern(child) {
            Ok(i) => i,
            Err(e) => {
                assert(intern_spec(n1, child@) is None);
                return Err(e);
            },
        };
        let ghost n2 = self.node_list();
        assert(intern_spec(n1, child@) == Some(n2));
        assert(n2[pidx as int] == parent@);
        proof {
            self.lemma_index_of(pidx as int);
            self.lemma_index_of(cidx as int);
        }
        assert(n2.index_of(parent@) == pidx as int);
        assert(n2.index_of(child@) == cidx as int);
        // A cycle guard: if child is already an ancestor of parent, wiring
        // parent as a parent of child would close a loop.
        if self.is_ancestor_idx(cidx, pidx) {
            return Err(DagError::Cyclic);
        }
        let pc = self.parent_count[cidx as usize] as usize;
        let mut k: usize = 0;
        while k < pc
            invariant
                self.wf(),
                pc == self.parent_count@[cidx as int],
                cidx < self.node_count,
                k <= pc,
                forall|j: int| 0 <= j < k ==> self.parents@[cidx as int]@[j] != pidx,
            decreases pc - k,
        {
            if self.parents[cidx as usize][k] == pidx {
                proof {
                    assert(self.edges()[cidx as int][k as int] == pidx);
                }
                return Ok(());
            }
            k = k + 1;
        }
        proof {
            if edge(e0, cidx as int, pidx as int) {
                let kk = choose|kk: int| 0 <= kk < e0[cidx as int].len() && e0[cidx as int][kk] == pidx;
                assert(self.parents@[cidx as int]@[kk] == pidx);
            }
        }
        assert(!edge(e0, cidx as int, pidx as int));
        assert(e0[cidx as int].len() == pc);
        if pc >= MAX_PARENTS {
            return Err(DagError::Overflow);
        }
        let mut row = self.parents[cidx as usize];
        row[pc] = pidx;
        self.parents[cidx as usize] = row;
        self.parent_count[cidx as usize] = (pc + 1) as u8;
        proof {
            assert forall|i: int| 0 <= i < MAX_NODES implies #[trigger] self.edges()[i] == e0.update(
                cidx as int,
                e0[cidx as int].push(pidx),
            )[i] by {
                if i == cidx {
                    assert(self.edges()[i] =~= e0[i].push(pidx));
                } else {
                    assert(self.edges()[i] =~= e0[i]);
                }
            }
            assert(self.edges() =~= e0.update(cidx as int, e0[cidx as int].push(pidx)));
            assert forall|w: Seq<int>| #[trigger] walk(self.edges(), w) && w.len() >= 2 implies w[0]
                != w.last() by {
                lemma_walk_with_edge(e0, cidx as int, pidx as int, w);
                if !walk(e0, w) {
                    let w1 = choose|w1: Seq<int>| #[trigger] walk(e0, w1) && w1[0] == w[0] && w1.last() == cidx as int;
                    let w2 = choose|w2: Seq<int>| #[trigger] walk(e0, w2) && w2[0] == pidx as int && w2.last() == w.last();
                    if w[0] == w.last() {
                        lemma_walk_concat(e0, w2, w1);
                        assert(walk(e0, w2 + w1.drop_first()));
                        assert(reaches(e0, pidx as int, cidx as int));
                    }
                }
            }
            assert forall|x: int, y: int| edge(e0, x, y) implies #[trigger] edge(self.edges(), x, y) by {
                let kk = choose|kk: int| 0 <= kk < e0[x].len() && e0[x][kk] == y;
                assert(self.edges()[x][kk] == y);
            }
            assert forall|x: int, y: int| #[trigger] edge(self.edges(), x, y) implies edge(e0, x, y) || (x
                == cidx && y == pidx) by {
                let kk = choose|kk: int| 0 <= kk < self.edges()[x].len() && self.edges()[x][kk] == y;
                if x != cidx || kk < pc {
                    assert(e0[x][kk] == y);
                }
            }
            assert(self.edges()[cidx as int][pc as int] == pidx);
        }
        Ok(())
    }

    /// The index of the node at position `i` is `i` (nodes are distinct).
    proof fn lemma_index_of(&self, i: int)
        requires
            self.wf(),
            0 <= i < self.node_list().len(),
        ensures
            self.node_list().index_of(self.node_list()[i]) == i,
    {
        let s = self.node_list();
        assert(s.contains(s[i]));
        let j = s.index_of(s[i]);
        if j != i {
            if j < i {
                assert(self.nodes@[j]@ != self.nodes@[i]@);
            } else {
                assert(self.nodes@[i]@ != self.nodes@[j]@);
            }
        }
    }

    /// Breadth-first search from `descendant` over parent links. The queue
    /// holds exactly the nodes visited so far.
    fn is_ancestor_idx(&mut self, ancestor_i: u16, descendant: u16) -> (r: bool)
        requires
            old(self).wf(),
            descendant < old(self).node_count,
            ancestor_i < old(self).node_count,
        ensures
            final(self).wf(),
            final(self).node_list() == old(self).node_list(),
            final(self).edges() == old(self).edges(),
            final(self).node_count == old(self).node_count,
            r == ancestor(old(self).edges(), ancestor_i as int, descendant as int),
    {
        let ghost e = self.edges();
        if ancestor_i == descendant {
            return false;
        }
        let mut head: usize = 0;
        let mut tail: usize = 0;
        self.queue[tail] = descendant;
        tail = tail + 1;
        self.visited[descendant as usize] = true;
        proof {
            lemma_count_true_zero(old(self).visited@);
            lemma_count_true_set(old(self).visited@, descendant as int);
            let w0 = seq![descendant as int];
            assert(walk(e, w0));
            assert forall|v: int|
                0 <= v < MAX_NODES && #[trigger] self.visited@[v] implies exists|i: int|
                    0 <= i < tail && self.queue@[i] == v by {
                if v == descendant {
                    assert(self.queue@[0] == v);
                } else {
                    assert(!old(self).visited@[v]);
                }
            }
        }
        let mut found = false;
        while head < tail && !found
            invariant
                self.node_count == old(self).node_count,
                self.nodes == old(self).nodes,
                self.parents == old(self).parents,
                self.parent_count == old(self).parent_count,
                e == self.edges(),
                e == old(self).edges(),
                old(self).wf(),
                ancestor_i != descendant,
                ancestor_i < self.node_count,
                head <= tail <= MAX_NODES,
                tail >= 1,
                self.queue@[0] == descendant,
                count_true(self.visited@) == tail,
                forall|i: int| 0 <= i < tail ==> (#[trigger] self.queue@[i]) < self.node_count,
                forall|i: int| 0 <= i < tail ==> self.visited@[#[trigger] self.queue@[i] as int],
                forall|v: int|
                    0 <= v < MAX_NODES && #[trigger] self.visited@[v] ==> exists|i: int|
                        0 <= i < tail && self.queue@[i] == v,
                forall|i: int| 0 <= i < tail ==> reaches(e, descendant as int, #[trigger] self.queue@[i] as int),
                !found ==> !self.visited@[ancestor_i as int],
                found ==> ancestor(e, ancestor_i as int, descendant as int),
                !found ==> forall|i: int, p: int|
                    #![trigger edge(e, self.queue@[i] as int, p)]
                    0 <= i < head && edge(e, self.queue@[i] as int, p) ==> 0 <= p < MAX_NODES
                        && self.visited@[p],
            decreases MAX_NODES - head, if found { 0int } else { 1int },
        {
            let cur = self.queue[head] as usize;
            head = head + 1;
            let pc = self.parent_count[cur] as usize;
            let mut k: usize = 0;
            while k < pc && !found
                invariant
                    self.node_count == old(self).node_count,
                    self.nodes == old(self).nodes,
                    self.parents == old(self).parents,
                    self.parent_count == old(self).parent_count,
                    e == self.edges(),
                    old(self).wf(),
                    ancestor_i != descendant,
                    ancestor_i < self.node_count,
                    cur < self.node_count,
                    pc == self.parent_count@[cur as int],
                    pc <= MAX_PARENTS,
                    k <= pc,
                    head <= tail <= MAX_NODES,
                    1 <= head,
                    cur == self.queue@[head - 1],
                    self.queue@[0] == descendant,
                    count_true(self.visited@) == tail,
                    forall|i: int| 0 <= i < tail ==> (#[trigger] self.queue@[i]) < self.node_count,
                    forall|i: int| 0 <= i < tail ==> self.visited@[#[trigger] self.queue@[i] as int],
                    forall|v: int|
                        0 <= v < MAX_NODES && #[trigger] self.visited@[v] ==> exists|i: int|
                            0 <= i < tail && self.queue@[i] == v,
                    forall|i: int| 0 <= i < tail ==> reaches(e, descendant as int, #[trigger] self.queue@[i] as int),
                    !found ==> !self.visited@[ancestor_i as int],
                    found ==> ancestor(e, ancestor_i as int, descendant as int),
                    !found ==> forall|i: int, p: int|
                        #![trigger edge(e, self.queue@[i] as int, p)]
                        0 <= i < head - 1 && edge(e, self.queue@[i] as int, p) ==> 0 <= p < MAX_NODES
                            && self.visited@[p],
                    !found ==> forall|j: int| 0 <= j < k ==> #[trigger] self.visited@[e[cur as int][j] as int],
                decreases pc - k, if found { 0int } else { 1int },
            {
                let p = self.parents[cur][k];
                proof {
                    assert(e[cur as int][k as int] == p);
                    assert(edge(e, cur as int, p as int));
                    let w = choose|w: Seq<int>| #[trigger] walk(e, w) && w[0] == descendant as int && w.last() == cur as int;
                    lemma_walk_extend(e, w, p as int);
                    assert(w.push(p as int)[0] == descendant as int);
                    assert(reaches(e, descendant as int, p as int));
                }
                if p == ancestor_i {
                    found = true;
                } else if !self.visited[p as usize] {
                    let ghost vis0 = self.visited@;
                    let ghost q0 = self.queue@;
                    proof {
                        lemma_count_true_set(self.visited@, p as int);
                        lemma_count_true_bound(self.visited@.update(p as int, true));
                    }
                    self.visited[p as usize] = true;
                    self.queue[tail] = p;
                    tail = tail + 1;
                    proof {
                        assert(self.queue@[tail - 1] == p);
                        assert forall|v: int|
                            0 <= v < MAX_NODES && #[trigger] self.visited@[v] implies exists|i: int|
                                0 <= i < tail && self.queue@[i] == v by {
                            if v == p {
                                assert(self.queue@[tail - 1] == v);
                            } else {
                                assert(vis0[v]);
                                let i0 = choose|i: int| 0 <= i < tail - 1 && q0[i] == v;
                                assert(self.queue@[i0] == v);
                            }
                        }
                    }
                }
                k = k + 1;
            }
            proof {
                if !found {
                    assert forall|i: int, p: int|
                        #![trigger edge(e, self.queue@[i] as int, p)]
                        0 <= i < head && edge(e, self.queue@[i] as int, p) implies 0 <= p < MAX_NODES
                            && self.visited@[p] by {
                        if i == head - 1 {
                            let kk = choose|kk: int| 0 <= kk < e[cur as int].len() && e[cur as int][kk] == p;
                            assert(e[cur as int][kk] == self.parents@[cur as int]@[kk]);
                            assert(self.parents@[cur as int]@[kk] < self.node_count);
                            assert(self.visited@[e[cur as int][kk] as int]);
                        }
                    }
                }
            }
        }
        proof {
            if !found {
                // The visited set holds the descendant, is closed under parent
                // links and misses the ancestor: no path reaches it.
                assert forall|w: Seq<int>| #[trigger] walk(e, w) && w[0] == descendant as int implies w.last() != ancestor_i as int by {
                    self.lemma_reach_visited(e, w, w.len() - 1, tail as int);
                }
            }
        }
        // Clear the bitmap: exactly the queued nodes were marked.
        let ghost vq = self.queue@;
        let mut i: usize = 0;
        while i < tail
            invariant
                i <= tail <= MAX_NODES,
                self.queue@ == vq,
                forall|j: int| 0 <= j < tail ==> (#[trigger] vq[j]) < MAX_NODES,
                forall|v: int|
                    0 <= v < MAX_NODES && #[trigger] self.visited@[v] ==> exists|j: int|
                        i <= j < tail && vq[j] == v,
                self.node_count == old(self).node_count,
                self.nodes == old(self).nodes,
                self.parents == old(self).parents,
                self.parent_count == old(self).parent_count,
            decreases tail - i,
        {
            let v = self.queue[i];
            self.visited[v as usize] = false;
            proof {
                assert forall|w: int|
                    0 <= w < MAX_NODES && #[trigger] self.visited@[w] implies exists|j: int|
                        i + 1 <= j < tail && vq[j] == w by {
                    let j = choose|j: int| i <= j < tail && vq[j] == w;
                    if j == i {
                        assert(w == v);
                    }
                }
            }
            i = i + 1;
        }
        proof {
            assert(self.edges() =~= e);
            assert(self.node_list() =~= old(self).node_list());
        }
        found
    }

    /// Every node a path from `d` reaches is visited, when the visited set
    /// holds `d` and is closed under parent links.
    proof fn lemma_reach_visited(&self, e: Seq<Seq<u16>>, w: Seq<int>, i: int, tail: int)
        requires
            0 <= tail <= MAX_NODES,
            0 < tail,
            walk(e, w),
            0 <= i < w.len(),
            w[0] == self.queue@[0],
            forall|j: int| 0 <= j < tail ==> (#[trigger] self.queue@[j]) < MAX_NODES,
            forall|j: int| 0 <= j < tail ==> self.visited@[#[trigger] self.queue@[j] as int],
            forall|j: int, p: int|
                #![trigger edge(e, self.queue@[j] as int, p)]
                0 <= j < tail && edge(e, self.queue@[j] as int, p) ==> 0 <= p < MAX_NODES
                    && self.visited@[p],
            forall|v: int|
                0 <= v < MAX_NODES && #[trigger] self.visited@[v] ==> exists|j: int|
                    0 <= j < tail && self.queue@[j] == v,
        ensures
            0 <= w[i] < MAX_NODES && self.visited@[w[i]],
        decreases i,
    {
        if i == 0 {
            assert(self.visited@[self.queue@[0] as int]);
        } else {
            self.lemma_reach_visited(e, w, i - 1, tail);
            let j = choose|j: int| 0 <= j < tail && self.queue@[j] == w[i - 1];
            assert(step_ok(e, w, i - 1));
            assert(edge(e, self.queue@[j] as int, w[i]));
        }
    }

    /// Hash-keyed ancestry; false when either node is unknown (fail-closed).
    pub fn is_ancestor(&mut self, ancestor_h: &Node, descendant: &Node) -> (r: bool)
        requires
            old(self).wf(),
        ensures
            final(self).wf(),
            final(self).node_list() == old(self).node_list(),
            final(self).edges() == old(self).edges(),
            r == (old(self).node_list().contains(ancestor_h@) && old(self).node_list().contains(
                descendant@,
            ) && ancestor(
                old(self).edges(),
                old(self).node_list().index_of(ancestor_h@),
                old(self).node_list().index_of(descendant@),
            )),
    {
        let a = match self.index_of(ancestor_h) {
            Some(idx) => idx,
            None => return false,
        };
        let d = match self.index_of(descendant) {
            Some(idx) => idx,
            None => return false,
        };
        proof {
            self.lemma_index_of(a as int);
            self.lemma_index_of(d as int);
        }
        self.is_ancestor_idx(a, d)
    }

    /// The supersession predicate: the span at `origin` is superseded iff
    /// `origin` is an ancestor of `effect` and `effect` of `claim`.
    pub fn supersedes(&mut self, origin: &Node, effect: &Node, claim: &Node) -> (r: bool)
        requires
            old(self).wf(),
        ensures
            final(self).wf(),
            final(self).node_list() == old(self).node_list(),
            final(self).edges() == old(self).edges(),
            r == (old(self).has_ancestor(origin@, effect@) && old(self).has_ancestor(effect@, claim@)),
    {
        self.is_ancestor(origin, effect) && self.is_ancestor(effect, claim)
    }

    /// Both nodes are interned and `a` is a proper ancestor of `d`.
    pub open spec fn has_ancestor(&self, a: Seq<u8>, d: Seq<u8>) -> bool {
        self.node_list().contains(a) && self.node_list().contains(d) && ancestor(
            self.edges(),
            self.node_list().index_of(a),
            self.node_list().index_of(d),
        )
    }
}

/// Convert a 32-byte slice to a Node; any other length is NotNode.
pub fn node_from_slice(s: &[u8]) -> (r: Result<Node, DagError>)
    ensures
        s@.len() == NODE_BYTES ==> r is Ok && r->Ok_0@ == s@,
        s@.len() != NODE_BYTES ==> r == Err::<Node, DagError>(DagError::NotNode),
{
    if s.len() != NODE_BYTES {
        return Err(DagError::NotNode);
    }
    let mut n = [0u8;32];
    let mut i: usize = 0;
    while i < NODE_BYTES
        invariant
            s@.len() == NODE_BYTES,
            i <= NODE_BYTES,
            forall|j: int| 0 <= j < i ==> n@[j] == s@[j],
        decreases NODE_BYTES - i,
    {
        n[i] = s[i];
        i = i + 1;
    }
    assert(n@ =~= s@);
    Ok(n)
}

// --- laws ------------------------------------------------------------------------

/// Ancestry in a well-formed DAG is irreflexive and asymmetric: no node is
/// its own ancestor, and two nodes are never each other's ancestor.
pub proof fn lemma_ancestry_asymmetric(d: &Dag, x: int, y: int)
    requires
        d.wf(),
    ensures
        !ancestor(d.edges(), x, x),
        !(ancestor(d.edges(), x, y) && ancestor(d.edges(), y, x)),
{
    let e = d.edges();
    if ancestor(e, x, y) && ancestor(e, y, x) {
        let w1 = choose|w: Seq<int>| #[trigger] walk(e, w) && w[0] == y && w.last() == x;
        let w2 = choose|w: Seq<int>| #[trigger] walk(e, w) && w[0] == x && w.last() == y;
        lemma_walk_concat(e, w1, w2);
        assert(walk(e, w1 + w2.drop_first()));
    }
}

/// Ancestry is transitive.
pub proof fn lemma_ancestry_transitive(d: &Dag, x: int, y: int, z: int)
    requires
        d.wf(),
        ancestor(d.edges(), x, y),
        ancestor(d.edges(), y, z),
    ensures
        ancestor(d.edges(), x, z),
{
    let e = d.edges();
    let w1 = choose|w: Seq<int>| #[trigger] walk(e, w) && w[0] == z && w.last() == y;
    let w2 = choose|w: Seq<int>| #[trigger] walk(e, w) && w[0] == y && w.last() == x;
    lemma_walk_concat(e, w1, w2);
    assert(walk(e, w1 + w2.drop_first()));
    if x == z {
        lemma_ancestry_asymmetric(d, x, y);
    }
}

/// An accepted insert leaves `parent` a proper ancestor of `child`.
pub proof fn lemma_insert_makes_ancestor(d1: &Dag, d2: &Dag, parent: Seq<u8>, child: Seq<u8>)
    requires
        d1.wf(),
        insert_spec(d1.node_list(), d1.edges(), parent, child) == (
            Ok::<(), DagError>(()),
            d2.node_list(),
            d2.edges(),
        ),
    ensures
        d2.has_ancestor(parent, child),
{
    let n2 = d2.node_list();
    let e2 = d2.edges();
    let n1 = intern_spec(d1.node_list(), parent)->Some_0;
    assert(n2.contains(parent) && n2.contains(child)) by {
        if d1.node_list().contains(parent) {
            assert(n1.contains(parent));
        } else {
            assert(n1[n1.len() - 1] == parent);
        }
        if n1.contains(child) {
            let j = choose|j: int| 0 <= j < n1.len() && n1[j] == child;
            assert(n2[j] == child);
        } else {
            assert(n2[n2.len() - 1] == child);
        }
        let i = choose|i: int| 0 <= i < n1.len() && n1[i] == parent;
        assert(n2[i] == parent);
    }
    let p = n2.index_of(parent);
    let c = n2.index_of(child);
    let e = d1.edges();
    if !edge(e, c, p) {
        assert(e2[c][e[c].len() as int] == p as u16);
    }
    assert(edge(e2, c, p));
    let w = seq![c, p];
    assert(step_ok(e2, w, 0));
    assert(walk(e2, w));
    assert(p != c);
}

/// Repeating an accepted insert is accepted and changes nothing.
pub proof fn lemma_insert_idempotent(d1: &Dag, d2: &Dag, parent: Seq<u8>, child: Seq<u8>)
    requires
        d1.wf(),
        d2.wf(),
        insert_spec(d1.node_list(), d1.edges(), parent, child) == (
            Ok::<(), DagError>(()),
            d2.node_list(),
            d2.edges(),
        ),
    ensures
        insert_spec(d2.node_list(), d2.edges(), parent, child) == (
            Ok::<(), DagError>(()),
            d2.node_list(),
            d2.edges(),
        ),
{
    lemma_insert_makes_ancestor(d1, d2, parent, child);
    let n2 = d2.node_list();
    let e2 = d2.edges();
    let p = n2.index_of(parent);
    let c = n2.index_of(child);
    lemma_ancestry_asymmetric(d2, p, c);
    let e = d1.edges();
    if !edge(e, c, p) {
        assert(e2[c][e[c].len() as int] == p as u16);
    }
    assert(edge(e2, c, p));
    assert(intern_spec(n2, parent) == Some(n2));
    assert(intern_spec(n2, child) == Some(n2));
}

} // verus!
