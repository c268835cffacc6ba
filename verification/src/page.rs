use crate::addr::{VirtAddr, VirtRegion, PAGE_SIZE};
use crate::vma::VmFlags;
use std::collections::HashMap;
use vstd::prelude::*;

verus! {

/// What the page table holds for one mapped page.
#[derive(Clone, Copy, Debug, PartialEq, Eq, Structural)]
pub struct PageEntry {
    pub flags: VmFlags,
}

/// The table after every page of `region` has been given `entry`.
pub open spec fn with_range(m: Map<usize, PageEntry>, region: VirtRegion, entry: PageEntry) -> Map<
    usize,
    PageEntry,
> {
    Map::new(
        |page: usize| m.contains_key(page) || region.has_page(page),
        |page: usize|
            if region.has_page(page) {
                entry
            } else {
                m[page]
            },
    )
}

/// The table after the entries of every page of `region` have been cleared.
pub open spec fn without_range(m: Map<usize, PageEntry>, region: VirtRegion) -> Map<
    usize,
    PageEntry,
> {
    m.remove_keys(region.pages())
}

/// Whether one of `ranges` holds `addr`.
pub open spec fn covered(ranges: Seq<VirtRegion>, addr: VirtAddr) -> bool {
    exists|i: int| 0 <= i < ranges.len() && (#[trigger] ranges[i]).has(addr)
}

/// The page table of one address space: the entry of each mapped page, by
/// the page's start address.
pub struct PageTable {
    entries: HashMap<usize, PageEntry>,
}

impl View for PageTable {
    type V = Map<usize, PageEntry>;

    closed spec fn view(&self) -> Map<usize, PageEntry> {
        self.entries@
    }
}

impl PageTable {
    /// A table with no page mapped.
    pub fn new() -> (t: PageTable)
        ensures
            t@ == Map::<usize, PageEntry>::empty(),
    {
        PageTable { entries: HashMap::new() }
    }

    /// The entry of the page that holds `addr`, if the page is mapped.
    pub fn lookup(&self, addr: VirtAddr) -> (r: Option<PageEntry>)
        ensures
            r == (if self@.contains_key(addr.page_base()) {
                Some(self@[addr.page_base()])
            } else {
                None
            }),
    {
        broadcast use vstd::std_specs::hash::group_hash_axioms;

        let page = addr.page_start();
        match self.entries.get(&page) {
            Some(entry) => Some(*entry),
            None => None,
        }
    }

    /// Whether the page that holds `addr` is mapped.
    pub fn is_mapped(&self, addr: VirtAddr) -> (b: bool)
        ensures
            b == self@.contains_key(addr.page_base()),
    {
        broadcast use vstd::std_specs::hash::group_hash_axioms;

        let page = addr.page_start();
        self.entries.contains_key(&page)
    }

    /// Gives every page of `region` the entry `entry`.
    pub fn map_range(&mut self, region: &VirtRegion, entry: PageEntry)
        ensures
            final(self)@ == with_range(old(self)@, *region, entry),
    {
        broadcast use vstd::std_specs::hash::group_hash_axioms;

        let end = region.end().0;
        let mut page = region.start().0;
        while page < end
            invariant
                region.valid(),
                end == region.spec_end().0,
                region.spec_start().0 <= page <= end,
                page % PAGE_SIZE == 0,
                self@ == Map::new(
                    |q: usize| old(self)@.contains_key(q) || (region.has_page(q) && q < page),
                    |q: usize|
                        if region.has_page(q) && q < page {
                            entry
                        } else {
                            old(self)@[q]
                        },
                ),
            decreases end - page,
        {
            let ghost before = self@;
            self.entries.insert(page, entry);
            let next = page + PAGE_SIZE;
            assert(self@ =~= Map::new(
                |q: usize| old(self)@.contains_key(q) || (region.has_page(q) && q < next),
                |q: usize|
                    if region.has_page(q) && q < next {
                        entry
                    } else {
                        old(self)@[q]
                    },
            )) by {
                assert(before.insert(page, entry) == self@);
                assert forall|q: usize| region.has_page(q) && q < next implies q < page || q
                    == page by {}
            }
            page = next;
        }
        assert(self@ =~= with_range(old(self)@, *region, entry));
    }

    /// Clears the entry of every page of `region`, and notes the range in
    /// `flusher`. What the processor has cached stays until the batch is flushed.
    pub fn unmap_range(&mut self, region: &VirtRegion, flusher: &mut PageFlushAll)
        ensures
            final(self)@ == without_range(old(self)@, *region),
            final(flusher)@ == old(flusher)@.push(*region),
    {
        broadcast use vstd::std_specs::hash::group_hash_axioms;

        let end = region.end().0;
        let mut page = region.start().0;
        while page < end
            invariant
                region.valid(),
                end == region.spec_end().0,
                region.spec_start().0 <= page <= end,
                page % PAGE_SIZE == 0,
                self@ == old(self)@.remove_keys(
                    Set::new(|q: usize| region.has_page(q) && q < page),
                ),
            decreases end - page,
        {
            let ghost before = self@;
            self.entries.remove(&page);
            let next = page + PAGE_SIZE;
            assert(self@ =~= old(self)@.remove_keys(
                Set::new(|q: usize| region.has_page(q) && q < next),
            )) by {
                assert(before.remove(page) == self@);
                assert forall|q: usize| region.has_page(q) && q < next implies q < page || q
                    == page by {}
            }
            page = next;
        }
        assert(self@ =~= without_range(old(self)@, *region));
        flusher.record(*region);
    }
}

/// The ranges unmapped during one operation, gathered so that a single
/// invalidation of the processor's cache can cover them all.
pub struct PageFlushAll {
    ranges: Vec<VirtRegion>,
}

impl View for PageFlushAll {
    type V = Seq<VirtRegion>;

    closed spec fn view(&self) -> Seq<VirtRegion> {
        self.ranges@
    }
}

impl PageFlushAll {
    /// An empty batch.
    pub fn new() -> (f: PageFlushAll)
        ensures
            f@ == Seq::<VirtRegion>::empty(),
    {
        PageFlushAll { ranges: Vec::new() }
    }

    /// Notes that the pages of `region` have been unmapped.
    pub fn record(&mut self, region: VirtRegion)
        ensures
            final(self)@ == old(self)@.push(region),
    {
        self.ranges.push(region);
    }

    /// Ends the batch with the one invalidation that covers every range
    /// noted in it.
    pub fn flush(self) -> (t: TlbInvalidation)
        ensures
            t@ == self@,
    {
        TlbInvalidation { ranges: self.ranges }
    }
}

/// One pass over the processor's cache of page-table entries: the ranges
/// that it invalidates.
pub struct TlbInvalidation {
    ranges: Vec<VirtRegion>,
}

impl View for TlbInvalidation {
    type V = Seq<VirtRegion>;

    closed spec fn view(&self) -> Seq<VirtRegion> {
        self.ranges@
    }
}

impl TlbInvalidation {
    /// The ranges of the pass, in the order in which they were unmapped.
    pub fn ranges(&self) -> (r: Vec<VirtRegion>)
        ensures
            r@ == self@,
    {
        let mut out: Vec<VirtRegion> = Vec::new();
        let mut k: usize = 0;
        while k < self.ranges.len()
            invariant
                k <= self.ranges@.len(),
                out@ == self.ranges@.take(k as int),
            decreases self.ranges@.len() - k,
        {
            out.push(self.ranges[k]);
            k += 1;
            assert(out@ =~= self.ranges@.take(k as int));
        }
        assert(out@ =~= self.ranges@);
        out
    }

    /// Whether the pass invalidates the cached entry for `addr`.
    pub fn covers(&self, addr: VirtAddr) -> (b: bool)
        ensures
            b == covered(self@, addr),
    {
        let mut k: usize = 0;
        while k < self.ranges.len()
            invariant
                k <= self.ranges@.len(),
                forall|i: int| 0 <= i < k ==> !(#[trigger] self.ranges@[i]).has(addr),
            decreases self.ranges@.len() - k,
        {
            if self.ranges[k].contains(addr) {
                return true;
            }
            k += 1;
        }
        false
    }
}

} // verus!
