//! Identities of surfaces and blocks, and the allocator that mints them.

use vstd::prelude::*;

verus! {

/// Hands out identities in increasing order, each one once.
#[derive(Debug)]
pub struct IdAllocator {
    next_id: u64,
}

impl IdAllocator {
    /// The identity the next allocation returns.
    pub closed spec fn next(&self) -> u64 {
        self.next_id
    }

    /// An allocator whose first identity is `first`.
    pub fn new(first: u64) -> (r: Self)
        ensures
            r.next() == first,
    {
        IdAllocator { next_id: first }
    }

    /// How many identities can still be allocated.
    pub fn remaining(&self) -> (r: u64)
        ensures
            r == u64::MAX - self.next(),
    {
        u64::MAX - self.next_id
    }

    /// Returns a fresh identity: larger than every one returned before.
    pub fn alloc_id(&mut self) -> (id: u64)
        requires
            old(self).next() < u64::MAX,
        ensures
            id == old(self).next(),
            final(self).next() == old(self).next() + 1,
    {
        let id: u64 = self.next_id;
        self.next_id = id + 1;
        id
    }
}

/// What a `SurfaceId` is, as plain values.
pub struct SurfaceIdView {
    pub id: u64,
    pub debug_name: Seq<char>,
}

/// Names one surface: `id` is unique, `debug_name` is for people.
#[derive(Debug, PartialEq, Eq)]
pub struct SurfaceId {
    pub id: u64,
    pub debug_name: String,
}

impl View for SurfaceId {
    type V = SurfaceIdView;

    open spec fn view(&self) -> SurfaceIdView {
        SurfaceIdView { id: self.id, debug_name: self.debug_name@ }
    }
}

impl Clone for SurfaceId {
    fn clone(&self) -> (r: Self)
        ensures
            r@ == self@,
    {
        SurfaceId { id: self.id, debug_name: self.debug_name.clone() }
    }
}

impl SurfaceId {
    /// A new identity under the given name, numbered by the allocator.
    pub fn new(debug_name: String, allocator: &mut IdAllocator) -> (r: Self)
        requires
            old(allocator).next() < u64::MAX,
        ensures
            r@.id == old(allocator).next(),
            r@.debug_name == debug_name@,
            final(allocator).next() == old(allocator).next() + 1,
    {
        let id: u64 = allocator.alloc_id();
        SurfaceId { id, debug_name }
    }
}

/// What a `BlockId` is, as plain values.
pub struct BlockIdView {
    pub id: u64,
    pub debug_name: Seq<char>,
}

/// Names one block, the leaf computation behind a custom node.
#[derive(Debug, PartialEq, Eq)]
pub struct BlockId {
    pub id: u64,
    pub debug_name: String,
}

impl View for BlockId {
    type V = BlockIdView;

    open spec fn view(&self) -> BlockIdView {
        BlockIdView { id: self.id, debug_name: self.debug_name@ }
    }
}

impl Clone for BlockId {
    fn clone(&self) -> (r: Self)
        ensures
            r@ == self@,
    {
        BlockId { id: self.id, debug_name: self.debug_name.clone() }
    }
}

impl BlockId {
    /// A new identity under the given name, numbered by the allocator.
    pub fn new(debug_name: String, allocator: &mut IdAllocator) -> (r: Self)
        requires
            old(allocator).next() < u64::MAX,
        ensures
            r@.id == old(allocator).next(),
            r@.debug_name == debug_name@,
            final(allocator).next() == old(allocator).next() + 1,
    {
        let id: u64 = allocator.alloc_id();
        BlockId { id, debug_name }
    }
}

} // verus!
