use vstd::prelude::*;

verus! {

/// Bytes in one page of virtual memory.
pub const PAGE_SIZE: usize = 4096;

/// A virtual address.
#[derive(Clone, Copy, Debug, PartialEq, Eq, Structural)]
pub struct VirtAddr(pub usize);

impl VirtAddr {
    pub fn new(address: usize) -> (a: VirtAddr)
        ensures
            a.0 == address,
    {
        VirtAddr(address)
    }

    pub fn data(&self) -> (d: usize)
        ensures
            d == self.0,
    {
        self.0
    }

    /// Whether the address is a multiple of the page size.
    pub open spec fn page_aligned(self) -> bool {
        self.0 % PAGE_SIZE == 0
    }

    pub fn is_page_aligned(&self) -> (b: bool)
        ensures
            b == self.page_aligned(),
    {
        self.0 % PAGE_SIZE == 0
    }

    /// The start of the page that holds the address.
    pub open spec fn page_base(self) -> usize {
        (self.0 - self.0 % PAGE_SIZE) as usize
    }

    pub fn page_start(&self) -> (p: usize)
        ensures
            p == self.page_base(),
            p % PAGE_SIZE == 0,
            p <= self.0 < p + PAGE_SIZE,
    {
        self.0 - self.0 % PAGE_SIZE
    }
}

/// A half-open interval `[start, end)` of virtual addresses. Every value of
/// this type is non-empty and has page-aligned bounds.
#[derive(Clone, Copy, Debug, PartialEq, Eq, Structural)]
pub struct VirtRegion {
    start: VirtAddr,
    end: VirtAddr,
}

impl VirtRegion {
    pub closed spec fn spec_start(&self) -> VirtAddr {
        self.start
    }

    pub closed spec fn spec_end(&self) -> VirtAddr {
        self.end
    }

    /// The invariant of the type: `start < end`, both page-aligned.
    #[verifier::type_invariant]
    pub open spec fn valid(&self) -> bool {
        &&& self.spec_start().0 < self.spec_end().0
        &&& self.spec_start().page_aligned()
        &&& self.spec_end().page_aligned()
    }

    /// Whether `addr` lies in the interval.
    pub open spec fn has(&self, addr: VirtAddr) -> bool {
        self.spec_start().0 <= addr.0 < self.spec_end().0
    }

    /// Whether the two intervals share an address.
    pub open spec fn intersects(&self, other: VirtRegion) -> bool {
        self.spec_start().0 < other.spec_end().0 && other.spec_start().0 < self.spec_end().0
    }

    /// Whether `page` is the start of a page inside the interval.
    pub open spec fn has_page(&self, page: usize) -> bool {
        self.spec_start().0 <= page < self.spec_end().0 && page % PAGE_SIZE == 0
    }

    /// The starts of the pages that make up the interval.
    pub open spec fn pages(&self) -> Set<usize> {
        Set::new(|page: usize| self.has_page(page))
    }

    /// Whether `start` and `size` describe a region: a positive whole number
    /// of pages, starting on a page boundary and ending within the address
    /// range.
    pub open spec fn describes(start: VirtAddr, size: usize) -> bool {
        &&& size > 0
        &&& start.page_aligned()
        &&& size % PAGE_SIZE == 0
        &&& start.0 + size <= usize::MAX
    }

    /// The region of `size` bytes at `start`, if there is one.
    pub fn new(start: VirtAddr, size: usize) -> (r: Option<VirtRegion>)
        ensures
            r.is_some() <==> Self::describes(start, size),
            r matches Some(v) ==> v.valid() && v.spec_start() == start && v.spec_end().0 == start.0
                + size,
    {
        if size == 0 || start.0 % PAGE_SIZE != 0 || size % PAGE_SIZE != 0 {
            return None;
        }
        match start.0.checked_add(size) {
            Some(end) => Some(VirtRegion { start, end: VirtAddr(end) }),
            None => None,
        }
    }

    /// The region from `start` up to `end`, if the bounds are page-aligned
    /// and `start < end`.
    pub fn between(start: VirtAddr, end: VirtAddr) -> (r: Option<VirtRegion>)
        ensures
            r.is_some() <==> (start.0 < end.0 && start.page_aligned() && end.page_aligned()),
            r matches Some(v) ==> v.valid() && v.spec_start() == start && v.spec_end() == end,
    {
        if start.0 < end.0 && start.0 % PAGE_SIZE == 0 && end.0 % PAGE_SIZE == 0 {
            Some(VirtRegion { start, end })
        } else {
            None
        }
    }

    #[verifier::when_used_as_spec(spec_start)]
    pub fn start(&self) -> (a: VirtAddr)
        ensures
            a == self.spec_start(),
            self.valid(),
    {
        proof {
            use_type_invariant(self);
        }
        self.start
    }

    #[verifier::when_used_as_spec(spec_end)]
    pub fn end(&self) -> (a: VirtAddr)
        ensures
            a == self.spec_end(),
            self.valid(),
    {
        proof {
            use_type_invariant(self);
        }
        self.end
    }

    pub fn size(&self) -> (n: usize)
        ensures
            n == self.spec_end().0 - self.spec_start().0,
            n > 0,
            n % PAGE_SIZE == 0,
    {
        proof {
            use_type_invariant(self);
        }
        self.end.0 - self.start.0
    }

    pub fn contains(&self, addr: VirtAddr) -> (b: bool)
        ensures
            b == self.has(addr),
    {
        self.start.0 <= addr.0 && addr.0 < self.end.0
    }

    /// Whether the region shares an address with `other`.
    pub fn collide(&self, other: &VirtRegion) -> (b: bool)
        ensures
            b == self.intersects(*other),
    {
        self.start.0 < other.end.0 && other.start.0 < self.end.0
    }

    /// Two regions with the same bounds are the same region.
    pub proof fn lemma_same_bounds(a: VirtRegion, b: VirtRegion)
        requires
            a.spec_start() == b.spec_start(),
            a.spec_end() == b.spec_end(),
        ensures
            a == b,
    {
    }
}

} // verus!
