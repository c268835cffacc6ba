use crate::addr::{VirtAddr, VirtRegion};
use crate::error::{ErrorKind, Overlap};
use crate::mappings::{
    address_ordered, all_valid, conflicts, fits, inserted, lemma_region_at_unique,
    lemma_region_with_bounds_unique, non_overlapping, region_at, tagged_with, MappingSet,
};
use crate::page::{with_range, PageEntry, PageFlushAll, PageTable, TlbInvalidation};
use crate::shm::{released, ShmManager};
use crate::vma::{ShmId, ShmTag, Vma};
use vstd::prelude::*;

verus! {

/// The starts of the pages that the regions of `s` are made of.
pub open spec fn pages_of(s: Set<Vma>) -> Set<usize> {
    Set::new(|page: usize| exists|v: Vma| #[trigger] s.contains(v) && v.region.has_page(page))
}

/// The page table `t` maps exactly the pages of the regions of `s`, each
/// with the flags of its region.
pub open spec fn consistent(s: Set<Vma>, t: Map<usize, PageEntry>) -> bool {
    &&& forall|v: Vma, page: usize|
        #![trigger s.contains(v), v.region.has_page(page)]
        s.contains(v) && v.region.has_page(page) ==> t.contains_key(page) && t[page].flags
            == v.flags
    &&& forall|page: usize| #[trigger] t.contains_key(page) ==> pages_of(s).contains(page)
}

/// The attach event that a detach at `vaddr` would end: the tag of the
/// region that holds `vaddr`, where `vaddr` is that region's start and the
/// region maps shared memory.
pub open spec fn shm_tag_at(s: Set<Vma>, vaddr: VirtAddr) -> Option<ShmTag> {
    match region_at(s, vaddr) {
        Some(v) => if v.region.spec_start() == vaddr {
            v.tag()
        } else {
            None
        },
        None => None,
    }
}

/// What a detach at `vaddr` answers: the segment whose attachment ends, or
/// `InvalidArgument` where there is no attachment to end at `vaddr`.
pub open spec fn detach_outcome(s: Set<Vma>, vaddr: VirtAddr) -> Result<ShmId, ErrorKind> {
    match shm_tag_at(s, vaddr) {
        Some(tag) => Ok(tag.shm_id),
        None => Err(ErrorKind::InvalidArgument),
    }
}

/// The regions left by a detach at `vaddr`: all but those of the attach
/// event found there; the same set where the detach is refused.
pub open spec fn shm_detached(s: Set<Vma>, vaddr: VirtAddr) -> Set<Vma> {
    match shm_tag_at(s, vaddr) {
        Some(tag) => s.difference(tagged_with(s, tag)),
        None => s,
    }
}

/// `batch` lists the regions of `removed`, each once, in address order.
pub open spec fn lists_regions_of(batch: Seq<VirtRegion>, removed: Set<Vma>) -> bool {
    &&& batch.len() == removed.len()
    &&& batch.no_duplicates()
    &&& forall|r: VirtRegion|
        batch.contains(r) <==> exists|v: Vma| #[trigger] removed.contains(v) && v.region == r
    &&& forall|i: int, j: int|
        #![trigger batch[i], batch[j]]
        0 <= i < j < batch.len() ==> batch[i].spec_end().0 <= batch[j].spec_start().0
}

/// The attach events that the regions of `s` came from.
pub open spec fn attachments(s: Set<Vma>) -> Set<ShmTag> {
    Set::new(|tag: ShmTag| exists|v: Vma| #[trigger] s.contains(v) && v.tag() == Some(tag))
}

/// The attach events of the descriptors of `vmas`, each once, in the order
/// in which they first occur.
pub open spec fn tags_in_order(vmas: Seq<Vma>) -> Seq<ShmTag>
    decreases vmas.len(),
{
    if vmas.len() == 0 {
        Seq::empty()
    } else {
        let before = tags_in_order(vmas.drop_last());
        match vmas.last().tag() {
            Some(tag) => if before.contains(tag) {
                before
            } else {
                before.push(tag)
            },
            None => before,
        }
    }
}

/// `held` names the attach events of the regions of `s`, each once, in the
/// address order of the first region of each.
pub open spec fn names_attachments_of(held: Seq<ShmTag>, s: Set<Vma>) -> bool {
    exists|ordered: Seq<Vma>|
        {
            &&& #[trigger] address_ordered(ordered)
            &&& ordered.to_set() == s
            &&& ordered.len() == s.len()
            &&& held == tags_in_order(ordered)
        }
}

/// `tags_in_order` names every attach event of the sequence, and none
/// twice.
pub proof fn lemma_tags_in_order(vmas: Seq<Vma>)
    ensures
        tags_in_order(vmas).no_duplicates(),
        tags_in_order(vmas).to_set() == attachments(vmas.to_set()),
    decreases vmas.len(),
{
    let tags = tags_in_order(vmas);
    if vmas.len() == 0 {
        assert(tags.to_set() =~= attachments(vmas.to_set()));
    } else {
        let front = vmas.drop_last();
        let before = tags_in_order(front);
        lemma_tags_in_order(front);
        assert forall|x: ShmTag| tags.to_set().contains(x) <==> attachments(
            vmas.to_set(),
        ).contains(x) by {
            if tags.contains(x) {
                let i = choose|i: int| 0 <= i < tags.len() && tags[i] == x;
                if i < before.len() {
                    assert(before[i] == x);
                    assert(before.to_set().contains(x));
                    let v = choose|v: Vma| #[trigger]
                        front.to_set().contains(v) && v.tag() == Some(x);
                    let j = choose|j: int| 0 <= j < front.len() && front[j] == v;
                    assert(vmas[j] == v);
                    assert(vmas.to_set().contains(v));
                } else {
                    assert(vmas.last().tag() == Some(x));
                    assert(vmas[vmas.len() - 1] == vmas.last());
                    assert(vmas.to_set().contains(vmas.last()));
                }
            }
            if attachments(vmas.to_set()).contains(x) {
                let v = choose|v: Vma| #[trigger] vmas.to_set().contains(v) && v.tag() == Some(x);
                let j = choose|j: int| 0 <= j < vmas.len() && vmas[j] == v;
                if j < front.len() {
                    assert(front[j] == v);
                    assert(front.to_set().contains(v));
                    assert(before.to_set().contains(x));
                    let i = choose|i: int| 0 <= i < before.len() && before[i] == x;
                    assert(tags[i] == x);
                } else {
                    assert(vmas.last().tag() == Some(x));
                    if before.contains(x) {
                        let i = choose|i: int| 0 <= i < before.len() && before[i] == x;
                        assert(tags[i] == x);
                    } else {
                        assert(tags[tags.len() - 1] == x);
                    }
                }
            }
        }
        assert(tags.to_set() =~= attachments(vmas.to_set()));
        assert forall|a: int, b: int|
            0 <= a < tags.len() && 0 <= b < tags.len() && a != b implies tags[a] != tags[b] by {
            if a < before.len() && b < before.len() {
                assert(before[a] != before[b]);
            } else if a < before.len() {
                assert(before.contains(before[a]));
            } else if b < before.len() {
                assert(before.contains(before[b]));
            }
        }
    }
}

/// The ranges of each invalidation pass of `queue`.
pub open spec fn passes(queue: Seq<TlbInvalidation>) -> Seq<Seq<VirtRegion>> {
    queue.map_values(|t: TlbInvalidation| t@)
}

/// A detach at the start of a region takes the whole attach event. Where
/// `first` and `other` came from one attach event, a detach at the start
/// of `first` goes through and removes both; no region with their tag is
/// left, regions without it stay, and a pass that lists the removed
/// regions covers both.
pub proof fn lemma_detach_takes_whole_attachment(s: Set<Vma>, first: Vma, other: Vma, tag: ShmTag)
    requires
        non_overlapping(s),
        s.contains(first),
        s.contains(other),
        first.region.valid(),
        first.tag() == Some(tag),
        other.tagged(tag),
    ensures
        detach_outcome(s, first.region.spec_start()) == Ok::<ShmId, ErrorKind>(tag.shm_id),
        !shm_detached(s, first.region.spec_start()).contains(first),
        !shm_detached(s, first.region.spec_start()).contains(other),
        forall|v: Vma| #[trigger]
            shm_detached(s, first.region.spec_start()).contains(v) ==> s.contains(v) && !v.tagged(
                tag,
            ),
        forall|v: Vma|
            s.contains(v) && !v.tagged(tag) ==> #[trigger] shm_detached(
                s,
                first.region.spec_start(),
            ).contains(v),
        forall|batch: Seq<VirtRegion>| #[trigger]
            lists_regions_of(batch, tagged_with(s, tag)) ==> batch.contains(first.region)
                && batch.contains(other.region),
{
    let vaddr = first.region.spec_start();
    assert(first.region.has(vaddr));
    lemma_region_at_unique(s, vaddr, first);
    assert(tagged_with(s, tag).contains(first));
    assert(tagged_with(s, tag).contains(other));
}

/// A detach at an address inside a region, but not at its start, is
/// refused and leaves the regions as they were.
pub proof fn lemma_detach_inside_region_refused(s: Set<Vma>, v: Vma, vaddr: VirtAddr)
    requires
        non_overlapping(s),
        s.contains(v),
        v.region.has(vaddr),
        v.region.spec_start() != vaddr,
    ensures
        detach_outcome(s, vaddr) == Err::<ShmId, ErrorKind>(ErrorKind::InvalidArgument),
        shm_tag_at(s, vaddr) is None,
        shm_detached(s, vaddr) == s,
{
    lemma_region_at_unique(s, vaddr, v);
}

/// A detach at the start of a region that maps no shared memory is
/// refused and leaves the regions as they were.
pub proof fn lemma_detach_private_region_refused(s: Set<Vma>, v: Vma, vaddr: VirtAddr)
    requires
        non_overlapping(s),
        s.contains(v),
        v.region.has(vaddr),
        v.shm_id is None || v.shm_attach is None,
    ensures
        detach_outcome(s, vaddr) == Err::<ShmId, ErrorKind>(ErrorKind::InvalidArgument),
        shm_tag_at(s, vaddr) is None,
        shm_detached(s, vaddr) == s,
{
    lemma_region_at_unique(s, vaddr, v);
}

/// A detach at an address that no region holds is refused.
pub proof fn lemma_detach_unmapped_refused(s: Set<Vma>, vaddr: VirtAddr)
    requires
        forall|v: Vma| #[trigger] s.contains(v) ==> !v.region.has(vaddr),
    ensures
        detach_outcome(s, vaddr) == Err::<ShmId, ErrorKind>(ErrorKind::InvalidArgument),
        shm_tag_at(s, vaddr) is None,
        shm_detached(s, vaddr) == s,
{
}

/// After a detach at `vaddr` has gone through, no region holds `vaddr`, so
/// a second detach there is refused.
pub proof fn lemma_detach_twice_refused(s: Set<Vma>, vaddr: VirtAddr)
    requires
        non_overlapping(s),
        shm_tag_at(s, vaddr) is Some,
    ensures
        detach_outcome(s, vaddr) is Ok,
        detach_outcome(shm_detached(s, vaddr), vaddr) == Err::<ShmId, ErrorKind>(
            ErrorKind::InvalidArgument,
        ),
        region_at(shm_detached(s, vaddr), vaddr) is None,
        shm_tag_at(shm_detached(s, vaddr), vaddr) is None,
        shm_detached(shm_detached(s, vaddr), vaddr) == shm_detached(s, vaddr),
{
    let v = region_at(s, vaddr).unwrap();
    let tag = shm_tag_at(s, vaddr).unwrap();
    let rest = shm_detached(s, vaddr);
    assert(s.contains(v) && v.region.has(vaddr));
    assert(v.tagged(tag));
    assert forall|w: Vma| #[trigger] rest.contains(w) implies !w.region.has(vaddr) by {
        if w.region.has(vaddr) {
            assert(s.contains(w));
            lemma_region_at_unique(s, vaddr, w);
        }
    }
}

/// Removing a subset of the regions, and clearing the pages of what was
/// removed, keeps the page table in step with the regions.
pub proof fn lemma_consistent_after_removal(
    s: Set<Vma>,
    t: Map<usize, PageEntry>,
    removed: Set<Vma>,
)
    requires
        non_overlapping(s),
        all_valid(s),
        consistent(s, t),
        removed.subset_of(s),
    ensures
        consistent(s.difference(removed), t.remove_keys(pages_of(removed))),
{
    let s2 = s.difference(removed);
    let t2 = t.remove_keys(pages_of(removed));
    assert forall|v: Vma, page: usize|
        #![trigger s2.contains(v), v.region.has_page(page)]
        s2.contains(v) && v.region.has_page(page) implies t2.contains_key(page) && t2[page].flags
        == v.flags by {
        assert(s.contains(v));
        if pages_of(removed).contains(page) {
            let g = choose|g: Vma| #[trigger] removed.contains(g) && g.region.has_page(page);
            assert(s.contains(g));
            assert(g != v);
            assert(g.region.intersects(v.region));
        }
    }
    assert forall|page: usize| #[trigger] t2.contains_key(page) implies pages_of(s2).contains(
        page,
    ) by {
        assert(t.contains_key(page));
        assert(pages_of(s).contains(page));
        let v = choose|v: Vma| #[trigger] s.contains(v) && v.region.has_page(page);
        if removed.contains(v) {
            assert(pages_of(removed).contains(page));
        }
        assert(s2.contains(v));
    }
}

/// The regions of an address-ordered sequence of valid descriptors, taken
/// in the same order, list the regions of its set.
pub proof fn lemma_lists_regions(gs: Seq<Vma>)
    requires
        address_ordered(gs),
        forall|i: int| 0 <= i < gs.len() ==> (#[trigger] gs[i]).region.valid(),
    ensures
        lists_regions_of(gs.map_values(|v: Vma| v.region), gs.to_set()),
        gs.no_duplicates(),
{
    let batch = gs.map_values(|v: Vma| v.region);
    let removed = gs.to_set();
    assert forall|i: int, j: int| 0 <= i < gs.len() && 0 <= j < gs.len() && i != j implies gs[i]
        != gs[j] && batch[i] != batch[j] by {
        assert(gs[i].region.valid() && gs[j].region.valid());
        if i < j {
            assert(gs[i].region.spec_end().0 <= gs[j].region.spec_start().0);
        } else {
            assert(gs[j].region.spec_end().0 <= gs[i].region.spec_start().0);
        }
    }
    gs.unique_seq_to_set();
    assert forall|r: VirtRegion|
        batch.contains(r) <==> exists|v: Vma| #[trigger] removed.contains(v) && v.region == r by {
        if batch.contains(r) {
            let i = choose|i: int| 0 <= i < batch.len() && batch[i] == r;
            assert(removed.contains(gs[i]) && gs[i].region == r);
        }
        if exists|v: Vma| #[trigger] removed.contains(v) && v.region == r {
            let v = choose|v: Vma| #[trigger] removed.contains(v) && v.region == r;
            assert(gs.contains(v));
            let i = choose|i: int| 0 <= i < gs.len() && gs[i] == v;
            assert(batch[i] == r);
        }
    }
    assert forall|i: int, j: int|
        #![trigger batch[i], batch[j]]
        0 <= i < j < batch.len() implies batch[i].spec_end().0 <= batch[j].spec_start().0 by {
        assert(gs[i].region.spec_end().0 <= gs[j].region.spec_start().0);
    }
}

/// The pages of the first `k + 1` descriptors of `gs` are those of the
/// first `k` and those of the next one.
pub proof fn lemma_pages_of_take(gs: Seq<Vma>, k: int)
    requires
        0 <= k < gs.len(),
    ensures
        pages_of(gs.take(k + 1).to_set()) == pages_of(gs.take(k).to_set()).union(
            gs[k].region.pages(),
        ),
        gs.take(k + 1).to_set() == gs.take(k).to_set().insert(gs[k]),
{
    let done = gs.take(k);
    let next = gs.take(k + 1);
    let g = gs[k];
    assert(next =~= done.push(g));
    assert(next.to_set() =~= done.to_set().insert(g)) by {
        assert forall|x: Vma| next.to_set().contains(x) <==> (done.to_set().contains(x) || x
            == g) by {
            if next.contains(x) {
                let i = choose|i: int| 0 <= i < next.len() && next[i] == x;
                if i < done.len() {
                    assert(done[i] == x);
                }
            }
            if done.contains(x) {
                let i = choose|i: int| 0 <= i < done.len() && done[i] == x;
                assert(next[i] == x);
            }
            if x == g {
                assert(next[k] == x);
            }
        }
    }
    assert(pages_of(next.to_set()) =~= pages_of(done.to_set()).union(g.region.pages())) by {
        assert forall|page: usize|
            pages_of(next.to_set()).contains(page) <==> (pages_of(done.to_set()).union(
                g.region.pages(),
            ).contains(page)) by {
            assert(g.region.pages().contains(page) <==> g.region.has_page(page));
            if pages_of(next.to_set()).contains(page) {
                let v = choose|v: Vma| #[trigger]
                    next.to_set().contains(v) && v.region.has_page(page);
                if v != g {
                    assert(done.to_set().contains(v));
                }
            }
            if pages_of(done.to_set()).contains(page) {
                let v = choose|v: Vma| #[trigger]
                    done.to_set().contains(v) && v.region.has_page(page);
                assert(next.to_set().contains(v));
            }
            if g.region.has_page(page) {
                assert(next.to_set().contains(g));
            }
        }
    }
}

fn tag_listed(tags: &Vec<ShmTag>, tag: ShmTag) -> (b: bool)
    ensures
        b == tags@.contains(tag),
{
    let mut i: usize = 0;
    while i < tags.len()
        invariant
            i <= tags@.len(),
            forall|j: int| 0 <= j < i ==> tags@[j] != tag,
        decreases tags@.len() - i,
    {
        if tags[i].shm_id.0 == tag.shm_id.0 && tags[i].shm_attach.0 == tag.shm_attach.0 {
            return true;
        }
        i += 1;
    }
    false
}

/// The virtual-memory context of a process: its regions, its page table,
/// and the invalidation passes that its mutations have issued and that the
/// processor has still to carry out. A `&mut` borrow is the exclusive lock.
pub struct AddressSpace {
    mappings: MappingSet,
    page_table: PageTable,
    invalidations: Vec<TlbInvalidation>,
    mmap_min: VirtAddr,
}

impl AddressSpace {
    /// The lowest address at which a free place is looked for.
    pub closed spec fn mmap_floor(&self) -> VirtAddr {
        self.mmap_min
    }

    /// The region descriptors.
    pub closed spec fn regions(&self) -> Set<Vma> {
        self.mappings@
    }

    /// The page table: the entry of each mapped page.
    pub closed spec fn pages(&self) -> Map<usize, PageEntry> {
        self.page_table@
    }

    /// The invalidation passes issued and not yet taken, oldest first.
    pub closed spec fn pending(&self) -> Seq<Seq<VirtRegion>> {
        passes(self.invalidations@)
    }

    /// The representation is sound, and the page table maps exactly what
    /// the regions describe.
    pub closed spec fn wf(&self) -> bool {
        &&& self.mappings.wf()
        &&& consistent(self.mappings@, self.page_table@)
    }

    /// What soundness guarantees of the regions and the page table.
    pub proof fn lemma_wf(&self)
        requires
            self.wf(),
        ensures
            non_overlapping(self.regions()),
            all_valid(self.regions()),
            self.regions().finite(),
            consistent(self.regions(), self.pages()),
    {
        self.mappings.lemma_wf();
    }

    /// An address space with nothing mapped.
    pub fn new() -> (a: AddressSpace)
        ensures
            a.wf(),
            a.regions() == Set::<Vma>::empty(),
            a.pages() == Map::<usize, PageEntry>::empty(),
            a.pending() == Seq::<Seq<VirtRegion>>::empty(),
            a.mmap_floor() == VirtAddr(0),
    {
        let a = AddressSpace {
            mappings: MappingSet::new(),
            page_table: PageTable::new(),
            invalidations: Vec::new(),
            mmap_min: VirtAddr(0),
        };
        assert(a.pending() =~= Seq::<Seq<VirtRegion>>::empty());
        a
    }

    /// The region that holds `addr`, if any.
    pub fn lookup(&self, addr: VirtAddr) -> (r: Option<Vma>)
        requires
            self.wf(),
        ensures
            r == region_at(self.regions(), addr),
            r matches Some(v) ==> self.regions().contains(v) && v.region.has(addr),
            r is None ==> forall|v: Vma| #[trigger]
                self.regions().contains(v) ==> !v.region.has(addr),
    {
        self.mappings.contains(addr)
    }

    /// The page-table entry of the page that holds `addr`, if it is mapped.
    pub fn page_entry(&self, addr: VirtAddr) -> (r: Option<PageEntry>)
        ensures
            r == (if self.pages().contains_key(addr.page_base()) {
                Some(self.pages()[addr.page_base()])
            } else {
                None
            }),
    {
        self.page_table.lookup(addr)
    }

    /// The number of regions.
    pub fn region_count(&self) -> (n: usize)
        requires
            self.wf(),
        ensures
            n == self.regions().len(),
    {
        self.mappings.len()
    }

    /// The regions in address order.
    pub fn vmas(&self) -> (r: Vec<Vma>)
        requires
            self.wf(),
        ensures
            r@.to_set() == self.regions(),
            r@.len() == self.regions().len(),
            address_ordered(r@),
    {
        self.mappings.iter_vmas()
    }

    /// Maps the region of `vma` with its flags, unless it intersects a
    /// region that is already there; then nothing changes.
    pub fn map(&mut self, vma: Vma) -> (r: Result<(), Overlap>)
        requires
            old(self).wf(),
        ensures
            final(self).wf(),
            r is Ok <==> !conflicts(old(self).regions(), vma.region),
            final(self).regions() == inserted(old(self).regions(), vma),
            final(self).pages() == (if conflicts(old(self).regions(), vma.region) {
                old(self).pages()
            } else {
                with_range(old(self).pages(), vma.region, PageEntry { flags: vma.flags })
            }),
            final(self).pending() == old(self).pending(),
            final(self).mmap_floor() == old(self).mmap_floor(),
    {
        let ghost s = self.mappings@;
        let ghost t = self.page_table@;
        match self.mappings.insert(vma) {
            Ok(()) => {},
            Err(e) => {
                return Err(e);
            },
        }
        let entry = PageEntry { flags: vma.flags };
        self.page_table.map_range(&vma.region, entry);
        proof {
            let s2 = self.mappings@;
            let t2 = self.page_table@;
            assert forall|v: Vma, page: usize|
                #![trigger s2.contains(v), v.region.has_page(page)]
                s2.contains(v) && v.region.has_page(page) implies t2.contains_key(page)
                && t2[page].flags == v.flags by {
                if v != vma {
                    assert(s.contains(v));
                    if vma.region.has_page(page) {
                        assert(v.region.intersects(vma.region));
                    }
                }
            }
            assert forall|page: usize| #[trigger] t2.contains_key(page) implies pages_of(
                s2,
            ).contains(page) by {
                if vma.region.has_page(page) {
                    assert(s2.contains(vma));
                } else {
                    assert(t.contains_key(page));
                    assert(pages_of(s).contains(page));
                    let v = choose|v: Vma| #[trigger] s.contains(v) && v.region.has_page(page);
                    assert(s2.contains(v));
                }
            }
        }
        Ok(())
    }

    /// Ends the shared-memory attachment that starts at `vaddr`.
    ///
    /// The call is refused with `InvalidArgument`, and changes nothing,
    /// unless `vaddr` is the start of a region that maps shared memory.
    /// Otherwise every region of the same attach event is unmapped and
    /// removed, one invalidation pass is issued for all of them, and the
    /// segment's identifier is returned.
    pub fn detach_shm(&mut self, vaddr: VirtAddr) -> (r: Result<ShmId, ErrorKind>)
        requires
            old(self).wf(),
        ensures
            final(self).wf(),
            final(self).regions() == shm_detached(old(self).regions(), vaddr),
            final(self).mmap_floor() == old(self).mmap_floor(),
            r == detach_outcome(old(self).regions(), vaddr),
            match shm_tag_at(old(self).regions(), vaddr) {
                Some(tag) => {
                    &&& final(self).pages() == old(self).pages().remove_keys(
                        pages_of(tagged_with(old(self).regions(), tag)),
                    )
                    &&& final(self).pending().len() == old(self).pending().len() + 1
                    &&& final(self).pending().drop_last() == old(self).pending()
                    &&& lists_regions_of(
                        final(self).pending().last(),
                        tagged_with(old(self).regions(), tag),
                    )
                },
                None => {
                    &&& final(self).pages() == old(self).pages()
                    &&& final(self).pending() == old(self).pending()
                },
            },
    {
        let vma = match self.mappings.contains(vaddr) {
            Some(vma) => vma,
            None => {
                return Err(ErrorKind::InvalidArgument);
            },
        };
        if vma.region.start().0 != vaddr.0 {
            return Err(ErrorKind::InvalidArgument);
        }
        let tag = match vma.shm_tag() {
            Some(tag) => tag,
            None => {
                return Err(ErrorKind::InvalidArgument);
            },
        };
        let group = self.mappings.with_tag(tag);
        let ghost s = self.mappings@;
        let ghost t = self.page_table@;
        let ghost gs = group@;
        proof {
            self.mappings.lemma_wf();
            assert(tagged_with(s, tag).contains(vma));
            assert(gs.to_set().contains(vma));
        }
        if group.len() == 0 {
            return Err(ErrorKind::InvalidArgument);
        }
        let mut flusher = PageFlushAll::new();
        let mut k: usize = 0;
        while k < group.len()
            invariant
                k <= gs.len(),
                gs == group@,
                gs.to_set() == tagged_with(s, tag),
                gs.no_duplicates(),
                non_overlapping(s),
                all_valid(s),
                self.mappings.wf(),
                self.mappings@ == s.difference(gs.take(k as int).to_set()),
                self.page_table@ == t.remove_keys(pages_of(gs.take(k as int).to_set())),
                flusher@ == gs.take(k as int).map_values(|v: Vma| v.region),
                self.invalidations == old(self).invalidations,
                self.mmap_min == old(self).mmap_min,
            decreases gs.len() - k,
        {
            let g = group[k];
            let ghost cur = self.mappings@;
            let ghost done = gs.take(k as int);
            let ghost next = gs.take(k + 1);
            proof {
                assert(gs.to_set().contains(g));
                assert(s.contains(g));
                assert(!done.to_set().contains(g)) by {
                    if done.contains(g) {
                        let i = choose|i: int| 0 <= i < done.len() && done[i] == g;
                        assert(gs[i] == gs[k as int]);
                    }
                }
                assert(cur.contains(g));
                self.mappings.lemma_wf();
                lemma_region_with_bounds_unique(cur, g);
                assert(next =~= done.push(g));
            }
            self.page_table.unmap_range(&g.region, &mut flusher);
            let removed = self.mappings.remove(&g.region);
            proof {
                assert(removed == Some(g));
                lemma_pages_of_take(gs, k as int);
                assert(self.mappings@ =~= s.difference(next.to_set()));
                assert(self.page_table@ =~= t.remove_keys(pages_of(next.to_set())));
                assert(flusher@ =~= next.map_values(|v: Vma| v.region));
            }
            k += 1;
        }
        self.invalidations.push(flusher.flush());
        proof {
            assert(gs.take(gs.len() as int) =~= gs);
            let removed = tagged_with(s, tag);
            lemma_region_at_unique(s, vaddr, vma);
            lemma_consistent_after_removal(s, t, removed);
            assert forall|i: int| 0 <= i < gs.len() implies (#[trigger] gs[i]).region.valid() by {
                assert(gs.to_set().contains(gs[i]));
            }
            lemma_lists_regions(gs);
            let batch = gs.map_values(|v: Vma| v.region);
            assert(self.pending() =~= old(self).pending().push(batch));
            assert(self.pending().drop_last() =~= old(self).pending());
        }
        Ok(tag.shm_id)
    }

    /// The lowest address at which a free place is looked for.
    pub fn mmap_min(&self) -> (min: VirtAddr)
        ensures
            min == self.mmap_floor(),
    {
        self.mmap_min
    }

    /// Sets the lowest address at which a free place is looked for.
    pub fn set_mmap_min(&mut self, min: VirtAddr)
        requires
            old(self).wf(),
        ensures
            final(self).wf(),
            final(self).mmap_floor() == min,
            final(self).regions() == old(self).regions(),
            final(self).pages() == old(self).pages(),
            final(self).pending() == old(self).pending(),
    {
        self.mmap_min = min;
    }

    /// The lowest free place for `size` bytes that starts no lower than the
    /// floor, if the address range has one.
    pub fn find_free(&self, size: usize) -> (r: Option<VirtRegion>)
        requires
            self.wf(),
        ensures
            match r {
                Some(found) => {
                    &&& fits(self.regions(), self.mmap_floor(), size, found)
                    &&& forall|other: VirtRegion| #[trigger]
                        fits(self.regions(), self.mmap_floor(), size, other)
                            ==> found.spec_start().0 <= other.spec_start().0
                },
                None => forall|other: VirtRegion| !#[trigger] fits(
                    self.regions(),
                    self.mmap_floor(),
                    size,
                    other,
                ),
            },
    {
        self.mappings.find_free(self.mmap_min, size)
    }

    /// Tears down every region: all are unmapped and removed under one
    /// invalidation pass. Returns the attach events that the regions came
    /// from, each once, in the address order of their first regions, for
    /// their segments to be released.
    pub fn clear(&mut self) -> (held: Vec<ShmTag>)
        requires
            old(self).wf(),
        ensures
            final(self).wf(),
            final(self).regions() == Set::<Vma>::empty(),
            final(self).pages() == Map::<usize, PageEntry>::empty(),
            final(self).pending().len() == old(self).pending().len() + 1,
            final(self).pending().drop_last() == old(self).pending(),
            lists_regions_of(final(self).pending().last(), old(self).regions()),
            final(self).mmap_floor() == old(self).mmap_floor(),
            held@.no_duplicates(),
            held@.to_set() == attachments(old(self).regions()),
            names_attachments_of(held@, old(self).regions()),
    {
        let all = self.mappings.iter_vmas();
        let ghost s = self.mappings@;
        let ghost t = self.page_table@;
        let ghost gs = all@;
        let mut flusher = PageFlushAll::new();
        let mut held: Vec<ShmTag> = Vec::new();
        let mut k: usize = 0;
        while k < all.len()
            invariant
                k <= gs.len(),
                gs == all@,
                self.page_table@ == t.remove_keys(pages_of(gs.take(k as int).to_set())),
                flusher@ == gs.take(k as int).map_values(|v: Vma| v.region),
                held@ == tags_in_order(gs.take(k as int)),
                self.invalidations == old(self).invalidations,
                self.mappings == old(self).mappings,
                self.mmap_min == old(self).mmap_min,
            decreases gs.len() - k,
        {
            let g = all[k];
            self.page_table.unmap_range(&g.region, &mut flusher);
            proof {
                lemma_pages_of_take(gs, k as int);
                assert(self.page_table@ =~= t.remove_keys(pages_of(gs.take(k + 1).to_set())));
                assert(gs.take(k + 1) =~= gs.take(k as int).push(g));
                assert(gs.take(k + 1).drop_last() =~= gs.take(k as int));
                assert(flusher@ =~= gs.take(k + 1).map_values(|v: Vma| v.region));
            }
            match g.shm_tag() {
                Some(tag) => {
                    if !tag_listed(&held, tag) {
                        held.push(tag);
                    }
                },
                None => {},
            }
            k += 1;
        }
        self.mappings = MappingSet::new();
        self.invalidations.push(flusher.flush());
        proof {
            assert(gs.take(gs.len() as int) =~= gs);
            old(self).mappings.lemma_wf();
            assert(self.page_table@ =~= Map::<usize, PageEntry>::empty()) by {
                assert forall|page: usize| !self.page_table@.contains_key(page) by {
                    if t.contains_key(page) {
                        assert(pages_of(s).contains(page));
                    }
                }
            }
            assert forall|i: int| 0 <= i < gs.len() implies (#[trigger] gs[i]).region.valid() by {
                assert(gs.to_set().contains(gs[i]));
            }
            lemma_lists_regions(gs);
            lemma_tags_in_order(gs);
            let batch = gs.map_values(|v: Vma| v.region);
            assert(self.pending() =~= old(self).pending().push(batch));
            assert(self.pending().drop_last() =~= old(self).pending());
            assert(address_ordered(gs));
        }
        held
    }

    /// Ends the address space when its last owner goes: every region is
    /// torn down, and each attach event that it held is detached from its
    /// segment. Returns those attach events, in the order of their release.
    pub fn teardown(&mut self, shm: &mut ShmManager) -> (held: Vec<ShmTag>)
        requires
            old(self).wf(),
            old(shm).wf(),
        ensures
            final(self).wf(),
            final(shm).wf(),
            final(self).regions() == Set::<Vma>::empty(),
            final(self).pages() == Map::<usize, PageEntry>::empty(),
            final(self).pending().len() == old(self).pending().len() + 1,
            final(self).pending().drop_last() == old(self).pending(),
            lists_regions_of(final(self).pending().last(), old(self).regions()),
            final(self).mmap_floor() == old(self).mmap_floor(),
            held@.no_duplicates(),
            held@.to_set() == attachments(old(self).regions()),
            names_attachments_of(held@, old(self).regions()),
            final(shm)@ == released(old(shm)@, held@),
            final(shm).next_attachment() == old(shm).next_attachment(),
    {
        let held = self.clear();
        shm.release(&held);
        held
    }

    /// Hands over the invalidation passes issued so far, oldest first, for
    /// the processor to carry out, and empties the queue.
    pub fn take_invalidations(&mut self) -> (r: Vec<TlbInvalidation>)
        requires
            old(self).wf(),
        ensures
            final(self).wf(),
            passes(r@) == old(self).pending(),
            final(self).pending() == Seq::<Seq<VirtRegion>>::empty(),
            final(self).regions() == old(self).regions(),
            final(self).pages() == old(self).pages(),
            final(self).mmap_floor() == old(self).mmap_floor(),
    {
        let mut out: Vec<TlbInvalidation> = Vec::new();
        std::mem::swap(&mut out, &mut self.invalidations);
        assert(self.pending() =~= Seq::<Seq<VirtRegion>>::empty());
        out
    }
}

} // verus!
