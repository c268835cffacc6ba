use crate::addr::{VirtAddr, VirtRegion, PAGE_SIZE};
use crate::error::Overlap;
use crate::vma::{ShmTag, Vma};
use vstd::prelude::*;

verus! {

/// No two descriptors of `s` share an address.
pub open spec fn non_overlapping(s: Set<Vma>) -> bool {
    forall|a: Vma, b: Vma|
        #![trigger s.contains(a), s.contains(b)]
        s.contains(a) && s.contains(b) && a != b ==> !a.region.intersects(b.region)
}

/// Every descriptor of `s` holds a region with `start < end` and aligned
/// bounds.
pub open spec fn all_valid(s: Set<Vma>) -> bool {
    forall|v: Vma| #[trigger] s.contains(v) ==> v.region.valid()
}

/// Whether some descriptor of `s` intersects `region`.
pub open spec fn conflicts(s: Set<Vma>, region: VirtRegion) -> bool {
    exists|v: Vma| #[trigger] s.contains(v) && v.region.intersects(region)
}

/// The set after an attempt to insert `vma`: unchanged where `vma` would
/// intersect a stored region.
pub open spec fn inserted(s: Set<Vma>, vma: Vma) -> Set<Vma> {
    if conflicts(s, vma.region) {
        s
    } else {
        s.insert(vma)
    }
}

/// The set after attempting to insert each of `vmas` in turn.
pub open spec fn inserted_all(s: Set<Vma>, vmas: Seq<Vma>) -> Set<Vma>
    decreases vmas.len(),
{
    if vmas.len() == 0 {
        s
    } else {
        inserted(inserted_all(s, vmas.drop_last()), vmas.last())
    }
}

/// The descriptor of `s` whose region holds `addr`, if there is one.
pub open spec fn region_at(s: Set<Vma>, addr: VirtAddr) -> Option<Vma> {
    if exists|v: Vma| #[trigger] s.contains(v) && v.region.has(addr) {
        Some(choose|v: Vma| #[trigger] s.contains(v) && v.region.has(addr))
    } else {
        None
    }
}

/// The descriptor of `s` whose region is `region`, if there is one.
pub open spec fn region_with_bounds(s: Set<Vma>, region: VirtRegion) -> Option<Vma> {
    if exists|v: Vma| #[trigger] s.contains(v) && v.region == region {
        Some(choose|v: Vma| #[trigger] s.contains(v) && v.region == region)
    } else {
        None
    }
}

/// The descriptors of `s` that came from the attach event `tag`.
pub open spec fn tagged_with(s: Set<Vma>, tag: ShmTag) -> Set<Vma> {
    s.filter(|v: Vma| v.tagged(tag))
}

/// The descriptors of `s` that intersect `region`.
pub open spec fn intersecting(s: Set<Vma>, region: VirtRegion) -> Set<Vma> {
    s.filter(|v: Vma| v.region.intersects(region))
}

/// Whether `r` is a free place for `size` bytes at or above `min`: a region
/// of that size that starts no lower than `min` and meets no region of `s`.
pub open spec fn fits(s: Set<Vma>, min: VirtAddr, size: usize, r: VirtRegion) -> bool {
    &&& r.valid()
    &&& r.spec_start().0 >= min.0
    &&& r.spec_end().0 - r.spec_start().0 == size
    &&& !conflicts(s, r)
}

/// Each region of `s` ends before the next one starts.
pub open spec fn address_ordered(s: Seq<Vma>) -> bool {
    forall|i: int, j: int|
        #![trigger s[i], s[j]]
        0 <= i < j < s.len() ==> s[i].region.spec_end().0 <= s[j].region.spec_start().0
}

/// In a set without overlaps at most one descriptor holds a given address.
pub proof fn lemma_region_at_unique(s: Set<Vma>, addr: VirtAddr, v: Vma)
    requires
        non_overlapping(s),
        s.contains(v),
        v.region.has(addr),
    ensures
        region_at(s, addr) == Some(v),
{
    let w = choose|w: Vma| #[trigger] s.contains(w) && w.region.has(addr);
    assert(s.contains(w) && w.region.has(addr));
    if w != v {
        assert(w.region.intersects(v.region));
    }
}

/// In a set of valid regions without overlaps at most one descriptor has
/// given bounds.
pub proof fn lemma_region_with_bounds_unique(s: Set<Vma>, v: Vma)
    requires
        non_overlapping(s),
        all_valid(s),
        s.contains(v),
    ensures
        region_with_bounds(s, v.region) == Some(v),
{
    let w = choose|w: Vma| #[trigger] s.contains(w) && w.region == v.region;
    assert(s.contains(w) && w.region == v.region);
    if w != v {
        assert(w.region.intersects(v.region));
    }
}

/// An insertion keeps the set free of overlaps, whether it is accepted or
/// rejected, and a rejected one leaves the set as it was.
pub proof fn lemma_inserted_non_overlapping(s: Set<Vma>, vma: Vma)
    requires
        non_overlapping(s),
    ensures
        non_overlapping(inserted(s, vma)),
        conflicts(s, vma.region) ==> inserted(s, vma) == s,
{
    if !conflicts(s, vma.region) {
        let t = s.insert(vma);
        assert forall|a: Vma, b: Vma|
            #![trigger t.contains(a), t.contains(b)]
            t.contains(a) && t.contains(b) && a != b implies !a.region.intersects(b.region) by {
            if a == vma {
                assert(s.contains(b));
            } else if b == vma {
                assert(s.contains(a));
            } else {
                assert(s.contains(a) && s.contains(b));
            }
        }
    }
}

/// Whatever is inserted into a set without overlaps, in whatever order, no
/// two stored regions ever intersect: the property holds after every step.
pub proof fn lemma_insertions_never_overlap(s: Set<Vma>, vmas: Seq<Vma>)
    requires
        non_overlapping(s),
    ensures
        forall|k: int|
            0 <= k <= vmas.len() ==> non_overlapping(#[trigger] inserted_all(s, vmas.take(k))),
        non_overlapping(inserted_all(s, vmas)),
    decreases vmas.len(),
{
    if vmas.len() > 0 {
        let front = vmas.drop_last();
        lemma_insertions_never_overlap(s, front);
        lemma_inserted_non_overlapping(inserted_all(s, front), vmas.last());
        assert forall|k: int| 0 <= k <= vmas.len() implies non_overlapping(
            #[trigger] inserted_all(s, vmas.take(k)),
        ) by {
            if k < vmas.len() {
                assert(vmas.take(k) =~= front.take(k));
            } else {
                assert(vmas.take(k) =~= vmas);
            }
        }
    } else {
        assert forall|k: int| 0 <= k <= vmas.len() implies non_overlapping(
            #[trigger] inserted_all(s, vmas.take(k)),
        ) by {
            assert(vmas.take(k) =~= vmas);
        }
    }
}

/// The regions of one address space, kept apart and in address order.
pub struct MappingSet {
    vmas: Vec<Vma>,
}

impl View for MappingSet {
    type V = Set<Vma>;

    closed spec fn view(&self) -> Set<Vma> {
        self.vmas@.to_set()
    }
}

impl MappingSet {
    /// The representation is sound: regions are valid and stored in address
    /// order, each ending before the next starts.
    pub closed spec fn wf(&self) -> bool {
        &&& address_ordered(self.vmas@)
        &&& forall|i: int| 0 <= i < self.vmas@.len() ==> (#[trigger] self.vmas@[i]).region.valid()
    }

    /// What the representation guarantees of the set it stands for.
    pub proof fn lemma_wf(&self)
        requires
            self.wf(),
        ensures
            non_overlapping(self@),
            all_valid(self@),
            self@.finite(),
    {
        Self::lemma_ordered_set(self.vmas@);
    }

    proof fn lemma_ordered_set(s: Seq<Vma>)
        requires
            address_ordered(s),
            forall|i: int| 0 <= i < s.len() ==> (#[trigger] s[i]).region.valid(),
        ensures
            non_overlapping(s.to_set()),
            all_valid(s.to_set()),
            s.to_set().finite(),
            s.no_duplicates(),
            s.to_set().len() == s.len(),
    {
        let t = s.to_set();
        assert forall|a: Vma, b: Vma|
            #![trigger t.contains(a), t.contains(b)]
            t.contains(a) && t.contains(b) && a != b implies !a.region.intersects(b.region) by {
            let i = choose|i: int| 0 <= i < s.len() && s[i] == a;
            let j = choose|j: int| 0 <= j < s.len() && s[j] == b;
            if i < j {
                assert(s[i].region.spec_end().0 <= s[j].region.spec_start().0);
            } else {
                assert(s[j].region.spec_end().0 <= s[i].region.spec_start().0);
            }
        }
        assert forall|v: Vma| #[trigger] t.contains(v) implies v.region.valid() by {
            let i = choose|i: int| 0 <= i < s.len() && s[i] == v;
            assert(s[i].region.valid());
        }
        vstd::seq_lib::seq_to_set_is_finite(s);
        assert forall|i: int, j: int| 0 <= i < s.len() && 0 <= j < s.len() && i != j implies s[i]
            != s[j] by {
            assert(s[i].region.valid() && s[j].region.valid());
            if i < j {
                assert(s[i].region.spec_end().0 <= s[j].region.spec_start().0);
            } else {
                assert(s[j].region.spec_end().0 <= s[i].region.spec_start().0);
            }
        }
        s.unique_seq_to_set();
    }

    /// An empty set.
    pub fn new() -> (m: MappingSet)
        ensures
            m.wf(),
            m@ == Set::<Vma>::empty(),
    {
        let m = MappingSet { vmas: Vec::new() };
        assert(m@ =~= Set::<Vma>::empty());
        m
    }

    /// The number of regions in the set.
    pub fn len(&self) -> (n: usize)
        requires
            self.wf(),
        ensures
            n == self@.len(),
    {
        proof {
            Self::lemma_ordered_set(self.vmas@);
        }
        self.vmas.len()
    }

    pub fn is_empty(&self) -> (b: bool)
        requires
            self.wf(),
        ensures
            b == (self@ == Set::<Vma>::empty()),
    {
        proof {
            self.lemma_wf();
            if self.vmas@.len() == 0 {
                assert(self@ =~= Set::<Vma>::empty());
            } else {
                assert(self@.contains(self.vmas@[0]));
            }
        }
        self.vmas.len() == 0
    }

    /// The index of the first region that ends after `addr`: every region
    /// before it lies wholly at or below `addr`.
    fn locate(&self, addr: usize) -> (i: usize)
        requires
            self.wf(),
        ensures
            i <= self.vmas@.len(),
            forall|k: int| 0 <= k < i ==> (#[trigger] self.vmas@[k]).region.spec_end().0 <= addr,
            forall|k: int|
                i <= k < self.vmas@.len() ==> (#[trigger] self.vmas@[k]).region.spec_end().0 > addr,
    {
        let mut lo: usize = 0;
        let mut hi: usize = self.vmas.len();
        while lo < hi
            invariant
                self.wf(),
                lo <= hi <= self.vmas@.len(),
                forall|k: int|
                    0 <= k < lo ==> (#[trigger] self.vmas@[k]).region.spec_end().0 <= addr,
                forall|k: int|
                    hi <= k < self.vmas@.len() ==> (#[trigger] self.vmas@[k]).region.spec_end().0
                        > addr,
            decreases hi - lo,
        {
            let mid: usize = lo + (hi - lo) / 2;
            let end = self.vmas[mid].region.end();
            let ghost s = self.vmas@;
            if end.0 <= addr {
                assert forall|k: int| 0 <= k < mid + 1 implies (#[trigger] s[k]).region.spec_end().0
                    <= addr by {
                    if k < mid {
                        assert(s[k].region.spec_end().0 <= s[mid as int].region.spec_start().0);
                        assert(s[mid as int].region.valid());
                    }
                }
                lo = mid + 1;
            } else {
                assert forall|k: int| mid <= k < s.len() implies (#[trigger] s[k]).region.spec_end().0
                    > addr by {
                    if k > mid {
                        assert(s[mid as int].region.spec_end().0 <= s[k].region.spec_start().0);
                        assert(s[k].region.valid());
                    }
                }
                hi = mid;
            }
        }
        lo
    }

    /// The region that holds `addr`, if any.
    pub fn contains(&self, addr: VirtAddr) -> (r: Option<Vma>)
        requires
            self.wf(),
        ensures
            r == region_at(self@, addr),
            r matches Some(v) ==> self@.contains(v) && v.region.has(addr),
            r is None ==> forall|v: Vma| #[trigger] self@.contains(v) ==> !v.region.has(addr),
    {
        let i = self.locate(addr.0);
        let ghost s = self.vmas@;
        proof {
            self.lemma_wf();
        }
        if i < self.vmas.len() {
            let v = self.vmas[i];
            if v.region.contains(addr) {
                proof {
                    assert(s[i as int] == v);
                    assert(self@.contains(v));
                    lemma_region_at_unique(self@, addr, v);
                }
                return Some(v);
            }
        }
        proof {
            assert forall|v: Vma| #[trigger] self@.contains(v) implies !v.region.has(addr) by {
                let k = choose|k: int| 0 <= k < s.len() && s[k] == v;
                if k < i {
                    assert(s[k].region.spec_end().0 <= addr.0);
                } else if k > i {
                    assert(s[i as int].region.spec_end().0 <= s[k].region.spec_start().0);
                    assert(s[i as int].region.spec_end().0 > addr.0);
                } else {
                    assert(s[i as int].region.spec_end().0 > addr.0);
                }
            }
        }
        None
    }

    /// Adds `vma` unless its region intersects a stored one.
    pub fn insert(&mut self, vma: Vma) -> (r: Result<(), Overlap>)
        requires
            old(self).wf(),
        ensures
            final(self).wf(),
            r is Ok <==> !conflicts(old(self)@, vma.region),
            final(self)@ == inserted(old(self)@, vma),
    {
        let start = vma.region.start();
        let end = vma.region.end();
        let i = self.locate(start.0);
        let ghost s = self.vmas@;
        proof {
            self.lemma_wf();
        }
        if i < self.vmas.len() {
            let next = self.vmas[i].region.start();
            if next.0 < end.0 {
                proof {
                    assert(s[i as int].region.intersects(vma.region));
                    assert(self@.contains(s[i as int]));
                }
                return Err(Overlap);
            }
        }
        proof {
            assert forall|v: Vma| #[trigger] self@.contains(v) implies !v.region.intersects(
                vma.region,
            ) by {
                let k = choose|k: int| 0 <= k < s.len() && s[k] == v;
                if k < i {
                    assert(s[k].region.spec_end().0 <= start.0);
                } else if k > i {
                    assert(s[i as int].region.spec_end().0 <= s[k].region.spec_start().0);
                    assert(s[i as int].region.valid());
                }
            }
            assert(!conflicts(self@, vma.region));
        }
        self.vmas.insert(i, vma);
        proof {
            let t = self.vmas@;
            s.insert_ensures(i as int, vma);
            assert(t == s.insert(i as int, vma));
            assert forall|a: int, b: int| #![trigger t[a], t[b]] 0 <= a < b < t.len() implies t[a].region.spec_end().0
                <= t[b].region.spec_start().0 by {
                Self::lemma_insert_index(s, i as int, vma, a);
                Self::lemma_insert_index(s, i as int, vma, b);
                if a < i && b > i {
                    assert(s[a].region.spec_end().0 <= s[b - 1].region.spec_start().0 || a == b
                        - 1);
                } else if a < i && b == i {
                    assert(s[a].region.spec_end().0 <= start.0);
                } else if a == i {
                    assert(s[b - 1].region.valid());
                    if b - 1 > i {
                        assert(s[i as int].region.spec_end().0 <= s[b - 1].region.spec_start().0);
                        assert(s[i as int].region.valid());
                    }
                } else if a > i {
                    assert(s[a - 1].region.spec_end().0 <= s[b - 1].region.spec_start().0);
                } else {
                    assert(s[a].region.spec_end().0 <= s[b].region.spec_start().0);
                }
            }
            assert forall|k: int| 0 <= k < t.len() implies (#[trigger] t[k]).region.valid() by {
                Self::lemma_insert_index(s, i as int, vma, k);
                if k < i {
                    assert(s[k].region.valid());
                } else if k > i {
                    assert(s[k - 1].region.valid());
                }
            }
            assert(t.to_set() =~= s.to_set().insert(vma)) by {
                assert forall|x: Vma| t.to_set().contains(x) <==> s.to_set().insert(vma).contains(
                    x,
                ) by {
                    if t.to_set().contains(x) {
                        let k = choose|k: int| 0 <= k < t.len() && t[k] == x;
                        Self::lemma_insert_index(s, i as int, vma, k);
                        if k < i {
                            assert(s[k] == x);
                        } else if k > i {
                            assert(s[k - 1] == x);
                        }
                    }
                    if s.to_set().contains(x) {
                        let k = choose|k: int| 0 <= k < s.len() && s[k] == x;
                        if k < i {
                            Self::lemma_insert_index(s, i as int, vma, k);
                            assert(t[k] == x);
                        } else {
                            Self::lemma_insert_index(s, i as int, vma, k + 1);
                            assert(t[k + 1] == x);
                        }
                    }
                    if x == vma {
                        assert(t[i as int] == x);
                    }
                }
            }
        }
        Ok(())
    }

    proof fn lemma_insert_index(s: Seq<Vma>, i: int, vma: Vma, k: int)
        requires
            0 <= i <= s.len(),
            0 <= k <= s.len(),
        ensures
            s.insert(i, vma).len() == s.len() + 1,
            k < i ==> s.insert(i, vma)[k] == s[k],
            k == i ==> s.insert(i, vma)[k] == vma,
            k > i ==> s.insert(i, vma)[k] == s[k - 1],
    {
        s.insert_ensures(i, vma);
        if k > i {
            assert(s.insert(i, vma)[(k - 1) + 1] == s[k - 1]);
        }
    }

    /// Takes out the region with exactly the bounds of `region`, and hands
    /// back its descriptor. Without such a region the set stays as it is.
    pub fn remove(&mut self, region: &VirtRegion) -> (r: Option<Vma>)
        requires
            old(self).wf(),
        ensures
            final(self).wf(),
            r == region_with_bounds(old(self)@, *region),
            match r {
                Some(v) => old(self)@.contains(v) && v.region == *region && final(self)@ == old(
                    self,
                )@.remove(v),
                None => final(self)@ == old(self)@ && forall|v: Vma| #[trigger]
                    old(self)@.contains(v) ==> v.region != *region,
            },
    {
        let start = region.start();
        let i = self.locate(start.0);
        let ghost s = self.vmas@;
        proof {
            self.lemma_wf();
        }
        if i < self.vmas.len() {
            let found = self.vmas[i].region;
            if found.start().0 == region.start().0 && found.end().0 == region.end().0 {
                let v = self.vmas.remove(i);
                proof {
                    VirtRegion::lemma_same_bounds(found, *region);
                    let t = self.vmas@;
                    s.remove_ensures(i as int);
                    assert(s.to_set().contains(v));
                    lemma_region_with_bounds_unique(s.to_set(), v);
                    assert forall|a: int, b: int| #![trigger t[a], t[b]] 0 <= a < b < t.len() implies t[a].region.spec_end().0
                        <= t[b].region.spec_start().0 by {
                        let a0 = if a < i { a } else { a + 1 };
                        let b0 = if b < i { b } else { b + 1 };
                        assert(t[a] == s[a0] && t[b] == s[b0]);
                        assert(s[a0].region.spec_end().0 <= s[b0].region.spec_start().0);
                    }
                    assert forall|k: int| 0 <= k < t.len() implies (#[trigger] t[k]).region.valid() by {
                        let k0 = if k < i { k } else { k + 1 };
                        assert(t[k] == s[k0]);
                        assert(s[k0].region.valid());
                    }
                    Self::lemma_ordered_set(s);
                    assert(t.to_set() =~= s.to_set().remove(v)) by {
                        assert forall|x: Vma| t.to_set().contains(x) <==> s.to_set().remove(
                            v,
                        ).contains(x) by {
                            if t.to_set().contains(x) {
                                let k = choose|k: int| 0 <= k < t.len() && t[k] == x;
                                let k0 = if k < i { k } else { k + 1 };
                                assert(t[k] == s[k0]);
                                assert(s[k0] == x);
                                assert(k0 != i);
                                assert(s[k0] != s[i as int]);
                            }
                            if s.to_set().contains(x) && x != v {
                                let k = choose|k: int| 0 <= k < s.len() && s[k] == x;
                                assert(k != i);
                                let k1 = if k < i { k } else { k - 1 };
                                assert(t[k1] == s[k]);
                            }
                        }
                    }
                }
                return Some(v);
            }
        }
        proof {
            assert forall|v: Vma| #[trigger] self@.contains(v) implies v.region != *region by {
                let k = choose|k: int| 0 <= k < s.len() && s[k] == v;
                assert(s[k].region.valid());
                if k < i {
                    assert(s[k].region.spec_end().0 <= start.0);
                } else if k > i {
                    assert(s[i as int].region.spec_end().0 <= s[k].region.spec_start().0);
                    assert(s[i as int].region.spec_end().0 > start.0);
                }
            }
        }
        None
    }

    /// The descriptors whose regions intersect `region`, in address order.
    pub fn conflicting(&self, region: &VirtRegion) -> (r: Vec<Vma>)
        requires
            self.wf(),
        ensures
            r@.to_set() == intersecting(self@, *region),
            address_ordered(r@),
            r@.no_duplicates(),
    {
        let start = region.start().0;
        let end = region.end().0;
        let first = self.locate(start);
        let ghost s = self.vmas@;
        let mut out: Vec<Vma> = Vec::new();
        let mut k: usize = first;
        while k < self.vmas.len() && self.vmas[k].region.start().0 < end
            invariant
                self.wf(),
                s == self.vmas@,
                first <= k <= s.len(),
                out@ == s.subrange(first as int, k as int),
                start == region.spec_start().0,
                end == region.spec_end().0,
                forall|j: int| first <= j < s.len() ==> (#[trigger] s[j]).region.spec_end().0 > start,
                forall|j: int| first <= j < k ==> (#[trigger] s[j]).region.intersects(*region),
            decreases s.len() - k,
        {
            out.push(self.vmas[k]);
            k += 1;
            assert(out@ =~= s.subrange(first as int, k as int));
        }
        proof {
            let r = out@;
            assert(r.to_set() =~= intersecting(self@, *region)) by {
                assert forall|x: Vma| r.to_set().contains(x) <==> intersecting(
                    self@,
                    *region,
                ).contains(x) by {
                    if r.contains(x) {
                        let i = choose|i: int| 0 <= i < r.len() && r[i] == x;
                        assert(s[first + i] == x);
                        assert(s.contains(x));
                    }
                    if intersecting(self@, *region).contains(x) {
                        assert(s.contains(x));
                        let j = choose|j: int| 0 <= j < s.len() && s[j] == x;
                        if j < first {
                            assert(s[j].region.spec_end().0 <= start);
                        } else if j >= k {
                            assert(s[j].region.valid());
                            if j > k {
                                assert(s[k as int].region.spec_end().0 <= s[j].region.spec_start().0);
                                assert(s[k as int].region.valid());
                            }
                        } else {
                            assert(r[j - first] == x);
                        }
                    }
                }
            }
            assert forall|a: int, b: int| #![trigger r[a], r[b]] 0 <= a < b < r.len() implies r[a].region.spec_end().0
                <= r[b].region.spec_start().0 by {
                assert(s[first + a].region.spec_end().0 <= s[first + b].region.spec_start().0);
            }
            assert forall|i: int| 0 <= i < r.len() implies (#[trigger] r[i]).region.valid() by {
                assert(s[first + i].region.valid());
            }
            Self::lemma_ordered_set(r);
        }
        out
    }

    /// The lowest free place for `size` bytes at or above `min`, if the
    /// address range has one.
    pub fn find_free(&self, min: VirtAddr, size: usize) -> (r: Option<VirtRegion>)
        requires
            self.wf(),
        ensures
            match r {
                Some(found) => {
                    &&& fits(self@, min, size, found)
                    &&& forall|other: VirtRegion| #[trigger]
                        fits(self@, min, size, other) ==> found.spec_start().0
                            <= other.spec_start().0
                },
                None => forall|other: VirtRegion| !#[trigger] fits(self@, min, size, other),
            },
    {
        let ghost s = self.vmas@;
        if size == 0 || size % PAGE_SIZE != 0 {
            return None;
        }
        let rest = min.0 % PAGE_SIZE;
        let mut candidate: usize = if rest == 0 {
            min.0
        } else {
            match min.0.checked_add(PAGE_SIZE - rest) {
                Some(up) => up,
                None => {
                    return None;
                },
            }
        };
        let mut i = self.locate(candidate);
        proof {
            self.lemma_wf();
        }
        loop
            invariant
                self.wf(),
                s == self.vmas@,
                size > 0,
                size % PAGE_SIZE == 0,
                candidate % PAGE_SIZE == 0,
                candidate >= min.0,
                i <= s.len(),
                forall|j: int| 0 <= j < i ==> (#[trigger] s[j]).region.spec_end().0 <= candidate,
                forall|other: VirtRegion| #[trigger]
                    fits(self@, min, size, other) ==> other.spec_start().0 >= candidate,
            decreases s.len() - i,
        {
            let end = match candidate.checked_add(size) {
                Some(end) => end,
                None => {
                    return None;
                },
            };
            if i == self.vmas.len() || self.vmas[i].region.start().0 >= end {
                let found = VirtRegion::new(VirtAddr::new(candidate), size);
                proof {
                    let f = found.unwrap();
                    assert forall|v: Vma| #[trigger] self@.contains(v) implies !v.region.intersects(
                        f,
                    ) by {
                        let j = choose|j: int| 0 <= j < s.len() && s[j] == v;
                        if j < i {
                            assert(s[j].region.spec_end().0 <= candidate);
                        } else if j > i {
                            assert(s[i as int].region.spec_end().0 <= s[j].region.spec_start().0);
                            assert(s[i as int].region.valid());
                        }
                    }
                }
                return found;
            }
            let next = self.vmas[i].region.end().0;
            proof {
                let blocker = s[i as int];
                assert(self@.contains(blocker));
                assert forall|other: VirtRegion| #[trigger]
                    fits(self@, min, size, other) implies other.spec_start().0 >= next by {
                    if other.spec_start().0 < next {
                        assert(blocker.region.intersects(other));
                    }
                }
                assert forall|j: int| 0 <= j < i + 1 implies (#[trigger] s[j]).region.spec_end().0
                    <= next by {
                    if j < i {
                        assert(s[j].region.spec_end().0 <= s[i as int].region.spec_start().0);
                        assert(s[i as int].region.valid());
                    }
                }
            }
            if next > candidate {
                candidate = next;
            }
            i += 1;
        }
    }

    /// The descriptors in address order.
    pub fn iter_vmas(&self) -> (r: Vec<Vma>)
        requires
            self.wf(),
        ensures
            r@.to_set() == self@,
            r@.len() == self@.len(),
            address_ordered(r@),
    {
        let mut out: Vec<Vma> = Vec::new();
        let mut k: usize = 0;
        while k < self.vmas.len()
            invariant
                k <= self.vmas@.len(),
                out@ == self.vmas@.take(k as int),
            decreases self.vmas@.len() - k,
        {
            out.push(self.vmas[k]);
            k += 1;
            assert(out@ =~= self.vmas@.take(k as int));
        }
        proof {
            assert(out@ =~= self.vmas@);
            Self::lemma_ordered_set(self.vmas@);
        }
        out
    }

    /// The descriptors that came from the attach event `tag`, in address
    /// order.
    pub fn with_tag(&self, tag: ShmTag) -> (r: Vec<Vma>)
        requires
            self.wf(),
        ensures
            r@.to_set() == tagged_with(self@, tag),
            address_ordered(r@),
            r@.no_duplicates(),
    {
        let mut out: Vec<Vma> = Vec::new();
        let mut k: usize = 0;
        let ghost s = self.vmas@;
        while k < self.vmas.len()
            invariant
                self.wf(),
                s == self.vmas@,
                k <= s.len(),
                forall|x: Vma|
                    out@.contains(x) <==> (exists|j: int|
                        0 <= j < k && #[trigger] s[j] == x && x.tagged(tag)),
                forall|i: int|
                    0 <= i < out@.len() ==> exists|j: int| 0 <= j < k && s[j] == #[trigger] out@[i],
                address_ordered(out@),
            decreases s.len() - k,
        {
            let v = self.vmas[k];
            let ghost before = out@;
            if v.has_tag(tag) {
                out.push(v);
                proof {
                    let after = out@;
                    assert forall|a: int, b: int| #![trigger after[a], after[b]] 0 <= a < b < after.len() implies after[a].region.spec_end().0
                        <= after[b].region.spec_start().0 by {
                        if b == after.len() - 1 {
                            let j = choose|j: int| 0 <= j < k && s[j] == before[a];
                            assert(s[j].region.spec_end().0 <= s[k as int].region.spec_start().0);
                        } else {
                            assert(before[a].region.spec_end().0 <= before[b].region.spec_start().0);
                        }
                    }
                    assert forall|i: int| 0 <= i < after.len() implies exists|j: int|
                        0 <= j < k + 1 && s[j] == #[trigger] after[i] by {
                        if i == after.len() - 1 {
                            assert(s[k as int] == after[i]);
                        } else {
                            let j = choose|j: int| 0 <= j < k && s[j] == before[i];
                            assert(s[j] == after[i]);
                        }
                    }
                    assert forall|x: Vma| after.contains(x) <==> (exists|j: int|
                        0 <= j < k + 1 && #[trigger] s[j] == x && x.tagged(tag)) by {
                        if after.contains(x) {
                            let i = choose|i: int| 0 <= i < after.len() && after[i] == x;
                            if i == after.len() - 1 {
                                assert(s[k as int] == x);
                            } else {
                                assert(before[i] == x);
                                assert(before.contains(x));
                                let j = choose|j: int| 0 <= j < k && #[trigger] s[j] == x && x.tagged(tag);
                                assert(0 <= j < k + 1 && s[j] == x && x.tagged(tag));
                            }
                        }
                        if exists|j: int| 0 <= j < k + 1 && #[trigger] s[j] == x && x.tagged(tag) {
                            let j = choose|j: int| 0 <= j < k + 1 && #[trigger] s[j] == x && x.tagged(tag);
                            if j == k {
                                assert(after[after.len() - 1] == x);
                            } else {
                                assert(before.contains(x));
                                let i = choose|i: int| 0 <= i < before.len() && before[i] == x;
                                assert(after[i] == x);
                            }
                        }
                    }
                }
            } else {
                proof {
                    assert forall|x: Vma| before.contains(x) <==> (exists|j: int|
                        0 <= j < k + 1 && #[trigger] s[j] == x && x.tagged(tag)) by {
                        if before.contains(x) {
                            let j = choose|j: int| 0 <= j < k && #[trigger] s[j] == x && x.tagged(tag);
                            assert(0 <= j < k + 1 && s[j] == x && x.tagged(tag));
                        }
                        if exists|j: int| 0 <= j < k + 1 && #[trigger] s[j] == x && x.tagged(tag) {
                            let j = choose|j: int| 0 <= j < k + 1 && #[trigger] s[j] == x && x.tagged(tag);
                            assert(j != k);
                        }
                    }
                }
            }
            k += 1;
        }
        proof {
            let r = out@;
            assert(r.to_set() =~= tagged_with(self@, tag)) by {
                assert forall|x: Vma| r.to_set().contains(x) <==> tagged_with(self@, tag).contains(
                    x,
                ) by {
                    if r.contains(x) {
                        let j = choose|j: int| 0 <= j < k && #[trigger] s[j] == x && x.tagged(tag);
                        assert(s.contains(x));
                    }
                    if tagged_with(self@, tag).contains(x) {
                        assert(s.contains(x));
                        let j = choose|j: int| 0 <= j < s.len() && s[j] == x;
                        assert(0 <= j < k && s[j] == x && x.tagged(tag));
                    }
                }
            }
            assert forall|i: int| 0 <= i < r.len() implies (#[trigger] r[i]).region.valid() by {
                let j = choose|j: int| 0 <= j < k && s[j] == r[i];
                assert(s[j].region.valid());
            }
            Self::lemma_ordered_set(r);
        }
        out
    }
}

} // verus!
