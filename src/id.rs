//! Small numeric identifiers assigned to nodes, and the counter that hands
//! them out.

use vstd::prelude::*;

verus! {

/// A positive, small ID assigned to nodes in the AST and derived data
/// structures. Used as a lightweight way to refer to individual nodes, e.g.
/// during symbol table construction and name resolution.
#[derive(Clone, Copy, PartialEq, Eq, Structural, PartialOrd, Ord, Hash, Debug)]
pub struct NodeId(u32);

impl NodeId {
    /// The raw value of the identifier.
    pub closed spec fn raw(self) -> nat {
        self.0 as nat
    }

    /// Creates an identifier from a `usize`, which must fit below `u32::MAX`.
    pub fn new(x: usize) -> (r: NodeId)
        requires
            x < u32::MAX,
        ensures
            r.raw() == x,
    {
        NodeId(x as u32)
    }

    pub fn from_u32(x: u32) -> (r: NodeId)
        ensures
            r.raw() == x,
    {
        NodeId(x)
    }

    pub fn as_usize(&self) -> (r: usize)
        ensures
            r == self.raw(),
    {
        self.0 as usize
    }

    pub fn as_u32(&self) -> (r: u32)
        ensures
            r == self.raw(),
    {
        self.0
    }
}

/// The session-wide source of fresh node identifiers. Every identifier it
/// hands out is strictly greater than all the ones handed out before.
#[derive(Debug)]
pub struct NodeIdGen {
    next: u32,
}

impl NodeIdGen {
    /// The raw value of the next identifier to be handed out.
    pub closed spec fn next(self) -> nat {
        self.next as nat
    }

    /// The counter never exceeds its fixed width.
    pub proof fn lemma_next_bounded(self)
        ensures
            self.next() <= u32::MAX,
    {
    }

    /// How many identifiers can still be handed out.
    pub open spec fn remaining(self) -> nat {
        (u32::MAX - self.next()) as nat
    }

    pub fn new() -> (r: NodeIdGen)
        ensures
            r.next() == 1,
    {
        NodeIdGen { next: 1 }
    }

    /// Whether at least `n` more identifiers can be handed out.
    pub fn has_room(&self, n: usize) -> (r: bool)
        ensures
            r == (n <= self.remaining()),
    {
        (n as u64) <= (u32::MAX - self.next) as u64
    }

    /// Hands out a fresh identifier. The counter is fixed-width; running out
    /// of identifiers is excluded by the precondition.
    pub fn allocate(&mut self) -> (r: NodeId)
        requires
            old(self).remaining() > 0,
        ensures
            r.raw() == old(self).next(),
            final(self).next() == old(self).next() + 1,
    {
        let id = NodeId(self.next);
        self.next = self.next + 1;
        id
    }
}

/// The raw value of an identifier fits in 32 bits.
pub proof fn lemma_raw_bounded(a: NodeId)
    ensures
        a.raw() <= u32::MAX,
{
}

/// Identifiers with the same raw value are the same.
pub proof fn lemma_raw_injective(a: NodeId, b: NodeId)
    requires
        a.raw() == b.raw(),
    ensures
        a == b,
{
}

/// Two identifiers allocated one after the other: the later one is strictly
/// greater.
pub proof fn lemma_alloc_increasing(g0: NodeIdGen, g1: NodeIdGen, g2: NodeIdGen, a: NodeId, b: NodeId)
    requires
        a.raw() == g0.next(),
        g1.next() == g0.next() + 1,
        b.raw() == g1.next(),
        g2.next() == g1.next() + 1,
    ensures
        a.raw() < b.raw(),
        g0.next() < g2.next(),
{
}

} // verus!
