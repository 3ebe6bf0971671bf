//! Allocation backends for decoded sequences: the general heap, and a bump
//! allocator over one caller-provided region.

use vstd::prelude::*;

verus! {

#[derive(Clone, Copy, Debug, PartialEq, Eq, Structural)]
pub enum AllocError {
    /// The allocator was never given a region.
    NoRegion,
    /// The request does not fit in what is left of the region.
    OutOfMemory,
}

/// Where sequences get their memory while a scene is decoded. A backend
/// either grants a request of `size` bytes at alignment `align`, moving to a
/// new state, or refuses it and stays as it was.
pub trait SeqAllocator: Sized {
    spec fn wf(&self) -> bool;

    /// The state after granting the request, or `None` if it is refused.
    spec fn reserve_spec(&self, size: nat, align: nat) -> Option<Self>;


    /// Reserves `count * elem_size` bytes at alignment `align`.
    fn reserve(&mut self, count: u64, elem_size: u64, align: u64) -> (r: Result<(), AllocError>)
        requires
            old(self).wf(),
            align > 0,
        ensures
            final(self).wf(),
            match old(self).reserve_spec(count as nat * elem_size as nat, align as nat) {
                Some(n) => r is Ok && *final(self) == n,
                None => r is Err && *final(self) == *old(self),
            },
    ;
}

/// The state after granting every request of `reqs` in order, or `None` if
/// one of them is refused.
pub open spec fn reserve_all<A: SeqAllocator>(a: A, reqs: Seq<(nat, nat)>) -> Option<A>
    decreases reqs.len(),
{
    if reqs.len() == 0 {
        Some(a)
    } else {
        match a.reserve_spec(reqs[0].0, reqs[0].1) {
            Some(b) => reserve_all(b, reqs.drop_first()),
            None => None,
        }
    }
}

pub proof fn lemma_reserve_all_append<A: SeqAllocator>(a: A, r1: Seq<(nat, nat)>, r2: Seq<(nat, nat)>)
    ensures
        reserve_all(a, r1 + r2) == match reserve_all(a, r1) {
            Some(b) => reserve_all(b, r2),
            None => None,
        },
    decreases r1.len(),
{
    if r1.len() > 0 {
        assert((r1 + r2).drop_first() =~= r1.drop_first() + r2);
        if let Some(b) = a.reserve_spec(r1[0].0, r1[0].1) {
            lemma_reserve_all_append(b, r1.drop_first(), r2);
        }
    } else {
        assert(r1 + r2 =~= r2);
    }
}


/// The process's general-purpose allocator: it grants every request.
#[derive(Clone, Copy, Debug, PartialEq, Eq, Structural)]
pub struct HeapAllocator;

impl SeqAllocator for HeapAllocator {
    open spec fn wf(&self) -> bool {
        true
    }

    open spec fn reserve_spec(&self, size: nat, align: nat) -> Option<HeapAllocator> {
        Some(*self)
    }

    fn reserve(&mut self, count: u64, elem_size: u64, align: u64) -> (r: Result<(), AllocError>) {
        Ok(())
    }
}

pub proof fn lemma_heap_grants_all(reqs: Seq<(nat, nat)>)
    ensures
        reserve_all(HeapAllocator, reqs) == Some(HeapAllocator),
    decreases reqs.len(),
{
    if reqs.len() > 0 {
        lemma_heap_grants_all(reqs.drop_first());
    }
}

/// The abstract state of a bump allocator: the region's base address and
/// size, and how many of its bytes are used.
pub struct ArenaState {
    pub base: nat,
    pub used: nat,
    pub size: nat,
}

/// Bytes to add to `addr` to reach a multiple of `align`.
pub open spec fn padding(addr: nat, align: nat) -> nat {
    ((align - addr % align) % align as int) as nat
}

/// The state after allocating `size` bytes at alignment `align`, with the
/// address handed out; `None` when there is no region or the request would
/// pass its end.
pub open spec fn bump(s: ArenaState, size: nat, align: nat) -> Option<(ArenaState, nat)> {
    if s.base == 0 {
        None
    } else {
        let pad = padding(s.base + s.used, align);
        if s.used + pad + size <= s.size {
            Some((ArenaState { used: s.used + pad + size, ..s }, s.base + s.used + pad))
        } else {
            None
        }
    }
}

/// A bump allocator over one region of memory owned by the caller. It
/// never frees: the whole region is released at once by its owner.
pub struct FixedBaseAllocator {
    base: u64,
    used: u64,
    size: u64,
}

impl View for FixedBaseAllocator {
    type V = ArenaState;

    closed spec fn view(&self) -> ArenaState {
        ArenaState { base: self.base as nat, used: self.used as nat, size: self.size as nat }
    }
}

impl FixedBaseAllocator {
    /// An allocator with no region yet.
    pub fn new() -> (r: FixedBaseAllocator)
        ensures
            r.wf(),
            r@ == (ArenaState { base: 0, used: 0, size: 0 }),
    {
        FixedBaseAllocator { base: 0, used: 0, size: 0 }
    }

    /// Hands the allocator the region of `size` bytes at address `base`,
    /// with nothing used.
    pub fn init(&mut self, base: u64, size: u64)
        requires
            base + size <= u64::MAX,
        ensures
            final(self).wf(),
            final(self)@ == (ArenaState { base: base as nat, used: 0, size: size as nat }),
    {
        self.base = base;
        self.used = 0;
        self.size = size;
    }

    /// Allocates `size` bytes at alignment `align` and returns their address.
    pub fn allocate(&mut self, size: u64, align: u64) -> (r: Result<u64, AllocError>)
        requires
            old(self).wf(),
            align > 0,
        ensures
            final(self).wf(),
            match bump(old(self)@, size as nat, align as nat) {
                Some((s, addr)) => r == Ok::<u64, AllocError>(addr as u64) && final(self)@ == s,
                None => *final(self) == *old(self) && r == Err::<u64, AllocError>(
                    if old(self)@.base == 0 {
                        AllocError::NoRegion
                    } else {
                        AllocError::OutOfMemory
                    },
                ),
            },
    {
        if self.base == 0 {
            return Err(AllocError::NoRegion);
        }
        let addr = self.base + self.used;
        let pad = (align - addr % align) % align;
        let start = match self.used.checked_add(pad) {
            Some(v) => v,
            None => return Err(AllocError::OutOfMemory),
        };
        let new_used = match start.checked_add(size) {
            Some(v) => v,
            None => return Err(AllocError::OutOfMemory),
        };
        if new_used > self.size {
            return Err(AllocError::OutOfMemory);
        }
        self.used = new_used;
        Ok(addr + pad)
    }

    /// Individual frees are never honoured: memory comes back only when the
    /// owner releases the whole region.
    pub fn deallocate(&self, addr: u64, size: u64) {
    }

    /// Bytes handed out so far, alignment padding included.
    pub fn used(&self) -> (r: u64)
        ensures
            r == self@.used,
    {
        self.used
    }

    /// Size of the region.
    pub fn capacity(&self) -> (r: u64)
        ensures
            r == self@.size,
    {
        self.size
    }
}

impl SeqAllocator for FixedBaseAllocator {
    closed spec fn wf(&self) -> bool {
        self.used <= self.size && self.base + self.size <= u64::MAX
    }

    open spec fn reserve_spec(&self, size: nat, align: nat) -> Option<FixedBaseAllocator> {
        match bump(self@, size, align) {
            Some((s, _)) => Some(self.with_used(s.used)),
            None => None,
        }
    }

    fn reserve(&mut self, count: u64, elem_size: u64, align: u64) -> (r: Result<(), AllocError>) {
        match count.checked_mul(elem_size) {
            Some(n) => {
                match self.allocate(n, align) {
                    Ok(_) => Ok(()),
                    Err(e) => Err(e),
                }
            },
            None => {
                proof {
                    assert(count as nat * elem_size as nat > u64::MAX);
                }
                Err(AllocError::OutOfMemory)
            },
        }
    }
}

impl FixedBaseAllocator {
    /// This allocator with `used` bytes in use.
    pub closed spec fn with_used(&self, used: nat) -> FixedBaseAllocator {
        FixedBaseAllocator { used: used as u64, ..*self }
    }
}

/// The state after allocating every request of `reqs` in order, or `None`
/// if one of them does not fit.
pub open spec fn bump_all(s: ArenaState, reqs: Seq<(nat, nat)>) -> Option<ArenaState>
    decreases reqs.len(),
{
    if reqs.len() == 0 {
        Some(s)
    } else {
        match bump(s, reqs[0].0, reqs[0].1) {
            Some((t, _)) => bump_all(t, reqs.drop_first()),
            None => None,
        }
    }
}

/// The used-byte count after the requests of `reqs`, alignment padding
/// included, if the region had no end.
pub open spec fn padded_end(base: nat, used: nat, reqs: Seq<(nat, nat)>) -> nat
    decreases reqs.len(),
{
    if reqs.len() == 0 {
        used
    } else {
        padded_end(
            base,
            used + padding(base + used, reqs[0].1) + reqs[0].0,
            reqs.drop_first(),
        )
    }
}

proof fn lemma_padded_end_grows(base: nat, used: nat, reqs: Seq<(nat, nat)>)
    ensures
        padded_end(base, used, reqs) >= used,
    decreases reqs.len(),
{
    if reqs.len() > 0 {
        lemma_padded_end_grows(
            base,
            used + padding(base + used, reqs[0].1) + reqs[0].0,
            reqs.drop_first(),
        );
    }
}

/// An arena whose region has `s.size` bytes grants a sequence of requests
/// exactly when their sizes, with alignment padding, sum to at most
/// `s.size`; it then ends with that many bytes used.
pub proof fn lemma_arena_exhaustion(s: ArenaState, reqs: Seq<(nat, nat)>)
    requires
        s.base > 0,
        s.used <= s.size,
        forall|i: int| 0 <= i < reqs.len() ==> #[trigger] reqs[i].1 > 0,
    ensures
        (bump_all(s, reqs) is Some) <==> (padded_end(s.base, s.used, reqs) <= s.size),
        bump_all(s, reqs) matches Some(t) ==> (t == (ArenaState {
            used: padded_end(s.base, s.used, reqs),
            ..s
        })),
    decreases reqs.len(),
{
    if reqs.len() > 0 {
        let u1 = s.used + padding(s.base + s.used, reqs[0].1) + reqs[0].0;
        assert forall|i: int| 0 <= i < reqs.drop_first().len() implies #[trigger] reqs.drop_first()[i].1
            > 0 by {
            assert(reqs.drop_first()[i] == reqs[i + 1]);
        }
        if u1 <= s.size {
            lemma_arena_exhaustion(ArenaState { used: u1, ..s }, reqs.drop_first());
        } else {
            lemma_padded_end_grows(s.base, u1, reqs.drop_first());
        }
    }
}

proof fn lemma_bump_all_push(s: ArenaState, reqs: Seq<(nat, nat)>, r: (nat, nat))
    ensures
        bump_all(s, reqs.push(r)) == match bump_all(s, reqs) {
            Some(t) => match bump(t, r.0, r.1) {
                Some((u, _)) => Some(u),
                None => None,
            },
            None => None,
        },
    decreases reqs.len(),
{
    if reqs.len() > 0 {
        assert(reqs.push(r).drop_first() =~= reqs.drop_first().push(r));
        assert(reqs.push(r)[0] == reqs[0]);
        if let Some((t, _)) = bump(s, reqs[0].0, reqs[0].1) {
            lemma_bump_all_push(t, reqs.drop_first(), r);
        }
    } else {
        assert(reqs.push(r).drop_first() =~= Seq::<(nat, nat)>::empty());
        reveal_with_fuel(bump_all, 2);
    }
}

/// The request that fails is the first one that takes the padded sum past
/// the end of the region: all those before it are granted.
pub proof fn lemma_arena_first_failure(s: ArenaState, reqs: Seq<(nat, nat)>, k: int)
    requires
        s.base > 0,
        s.used <= s.size,
        forall|i: int| 0 <= i < reqs.len() ==> #[trigger] reqs[i].1 > 0,
        0 <= k < reqs.len(),
        padded_end(s.base, s.used, reqs.take(k)) <= s.size,
        padded_end(s.base, s.used, reqs.take(k + 1)) > s.size,
    ensures
        bump_all(s, reqs.take(k)) matches Some(t) && bump(t, reqs[k].0, reqs[k].1) is None,
        bump_all(s, reqs) is None,
{
    lemma_arena_exhaustion(s, reqs.take(k));
    lemma_arena_exhaustion(s, reqs.take(k + 1));
    assert(reqs.take(k + 1) =~= reqs.take(k).push(reqs[k]));
    lemma_bump_all_push(s, reqs.take(k), reqs[k]);
    lemma_bump_all_prefix(s, reqs.take(k + 1), reqs);
}

proof fn lemma_bump_all_prefix(s: ArenaState, p: Seq<(nat, nat)>, q: Seq<(nat, nat)>)
    requires
        p.is_prefix_of(q),
        bump_all(s, p) is None,
    ensures
        bump_all(s, q) is None,
    decreases p.len(),
{
    if p.len() > 0 {
        assert(p.drop_first().is_prefix_of(q.drop_first()));
        assert(p[0] == q[0]);
        if let Some((t, _)) = bump(s, p[0].0, p[0].1) {
            lemma_bump_all_prefix(t, p.drop_first(), q.drop_first());
        }
    }
}

} // verus!
