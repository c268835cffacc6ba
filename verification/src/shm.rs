use crate::error::ErrorKind;
use crate::vma::{AttachmentId, ShmId, ShmTag};
use std::collections::HashMap;
use vstd::prelude::*;

verus! {

/// The flags that a segment was created with.
#[derive(Clone, Copy, Debug, PartialEq, Eq, Structural)]
pub struct ShmFlags(pub u32);

/// One shared-memory segment, as the manager stores it.
#[derive(Clone, Copy, Debug, PartialEq, Eq, Structural)]
pub struct ShmSegment {
    /// Bytes of backing storage.
    pub size: usize,
    pub flags: ShmFlags,
    /// Set once removal has been asked for: the segment goes as soon as
    /// nothing is attached to it.
    pub marked_for_removal: bool,
    /// How many attachments are live.
    pub attach_count: usize,
}

/// A segment as contracts see it: sizes and counts are unbounded numbers.
pub struct SegmentState {
    pub size: nat,
    pub flags: ShmFlags,
    pub marked_for_removal: bool,
    pub attach_count: nat,
}

impl View for ShmSegment {
    type V = SegmentState;

    open spec fn view(&self) -> SegmentState {
        SegmentState {
            size: self.size as nat,
            flags: self.flags,
            marked_for_removal: self.marked_for_removal,
            attach_count: self.attach_count as nat,
        }
    }
}

/// No segment of `m` is both marked for removal and unattached: such a
/// segment has been destroyed.
pub open spec fn no_dead_segment(m: Map<ShmId, SegmentState>) -> bool {
    forall|id: ShmId| #[trigger]
        m.contains_key(id) ==> !(m[id].marked_for_removal && m[id].attach_count == 0)
}

/// The table after a segment is created under `id`; an identifier in use
/// is not given out again.
pub open spec fn created(m: Map<ShmId, SegmentState>, id: ShmId, size: nat, flags: ShmFlags) -> Map<
    ShmId,
    SegmentState,
> {
    if m.contains_key(id) {
        m
    } else {
        m.insert(id, SegmentState { size, flags, marked_for_removal: false, attach_count: 0 })
    }
}

/// The table after one attach to `id`.
pub open spec fn attached(m: Map<ShmId, SegmentState>, id: ShmId) -> Map<ShmId, SegmentState> {
    if m.contains_key(id) {
        m.insert(id, SegmentState { attach_count: m[id].attach_count + 1, ..m[id] })
    } else {
        m
    }
}

/// The table after one detach from `id`: the count goes down by one, and a
/// segment marked for removal is destroyed when the count reaches zero. A
/// count that is zero already stays zero.
pub open spec fn detached(m: Map<ShmId, SegmentState>, id: ShmId) -> Map<ShmId, SegmentState> {
    if !m.contains_key(id) {
        m
    } else if m[id].attach_count == 0 {
        m
    } else if m[id].attach_count == 1 && m[id].marked_for_removal {
        m.remove(id)
    } else {
        m.insert(id, SegmentState { attach_count: (m[id].attach_count - 1) as nat, ..m[id] })
    }
}

/// The table after removal of `id` has been asked for: an unattached
/// segment is destroyed at once, an attached one is marked.
pub open spec fn marked(m: Map<ShmId, SegmentState>, id: ShmId) -> Map<ShmId, SegmentState> {
    if !m.contains_key(id) {
        m
    } else if m[id].attach_count == 0 {
        m.remove(id)
    } else {
        m.insert(id, SegmentState { marked_for_removal: true, ..m[id] })
    }
}

/// The table after `n` attaches to `id`.
pub open spec fn attached_n(m: Map<ShmId, SegmentState>, id: ShmId, n: nat) -> Map<
    ShmId,
    SegmentState,
>
    decreases n,
{
    if n == 0 {
        m
    } else {
        attached(attached_n(m, id, (n - 1) as nat), id)
    }
}

/// The table after `n` detaches from `id`.
pub open spec fn detached_n(m: Map<ShmId, SegmentState>, id: ShmId, n: nat) -> Map<
    ShmId,
    SegmentState,
>
    decreases n,
{
    if n == 0 {
        m
    } else {
        detached(detached_n(m, id, (n - 1) as nat), id)
    }
}

/// The table after each attach event of `tags`, in turn, has been detached
/// from its segment.
pub open spec fn released(m: Map<ShmId, SegmentState>, tags: Seq<ShmTag>) -> Map<
    ShmId,
    SegmentState,
>
    decreases tags.len(),
{
    if tags.len() == 0 {
        m
    } else {
        detached(released(m, tags.drop_last()), tags.last().shm_id)
    }
}

/// `n` attaches raise the count of a segment by `n` and change nothing
/// else.
pub proof fn lemma_attached_n(m: Map<ShmId, SegmentState>, id: ShmId, n: nat)
    requires
        m.contains_key(id),
    ensures
        attached_n(m, id, n) == m.insert(
            id,
            SegmentState { attach_count: m[id].attach_count + n, ..m[id] },
        ),
    decreases n,
{
    if n == 0 {
        assert(m =~= m.insert(id, SegmentState { attach_count: m[id].attach_count + 0, ..m[id] }));
    } else {
        lemma_attached_n(m, id, (n - 1) as nat);
        let prev = attached_n(m, id, (n - 1) as nat);
        assert(attached(prev, id) =~= m.insert(
            id,
            SegmentState { attach_count: m[id].attach_count + n, ..m[id] },
        ));
    }
}

/// `k` detaches, where at least `k` attachments are live, lower the count
/// by `k`; the segment is destroyed by the detach that brings a marked
/// segment to zero, and by no earlier one.
pub proof fn lemma_detached_n(m: Map<ShmId, SegmentState>, id: ShmId, k: nat)
    requires
        m.contains_key(id),
        k <= m[id].attach_count,
    ensures
        detached_n(m, id, k) == (if k > 0 && k == m[id].attach_count
            && m[id].marked_for_removal {
            m.remove(id)
        } else {
            m.insert(id, SegmentState { attach_count: (m[id].attach_count - k) as nat, ..m[id] })
        }),
    decreases k,
{
    if k == 0 {
        assert(m =~= m.insert(
            id,
            SegmentState { attach_count: (m[id].attach_count - 0) as nat, ..m[id] },
        ));
    } else {
        lemma_detached_n(m, id, (k - 1) as nat);
        let prev = detached_n(m, id, (k - 1) as nat);
        assert(prev.contains_key(id));
        assert(prev[id].attach_count == m[id].attach_count - (k - 1));
        if k == m[id].attach_count && m[id].marked_for_removal {
            assert(detached(prev, id) =~= m.remove(id));
        } else {
            assert(detached(prev, id) =~= m.insert(
                id,
                SegmentState { attach_count: (m[id].attach_count - k) as nat, ..m[id] },
            ));
        }
    }
}

/// Attaching an unattached segment `n` times and detaching it `n` times
/// brings its count back to zero: after `k` of the detaches the count is
/// `n - k`, and the segment is still there after the last.
pub proof fn lemma_attach_detach_balance(m: Map<ShmId, SegmentState>, id: ShmId, n: nat, k: nat)
    requires
        m.contains_key(id),
        m[id].attach_count == 0,
        !m[id].marked_for_removal,
        k <= n,
    ensures
        attached_n(m, id, n).contains_key(id),
        attached_n(m, id, n)[id].attach_count == n,
        detached_n(attached_n(m, id, n), id, k).contains_key(id),
        detached_n(attached_n(m, id, n), id, k)[id].attach_count == n - k,
        detached_n(attached_n(m, id, n), id, n) == m,
{
    lemma_attached_n(m, id, n);
    let full = attached_n(m, id, n);
    lemma_detached_n(full, id, k);
    lemma_detached_n(full, id, n);
    assert(detached_n(full, id, n) =~= m);
}

/// Where removal of the segment is asked for while it is attached, after
/// `j` of `n` attaches, the segment outlives every detach but the last:
/// after `k < n` detaches it is there with count `n - k`, the `n`-th
/// detach destroys it, and a further detach finds nothing to destroy.
pub proof fn lemma_marked_segment_goes_with_last_detach(
    m: Map<ShmId, SegmentState>,
    id: ShmId,
    n: nat,
    j: nat,
    k: nat,
)
    requires
        m.contains_key(id),
        m[id].attach_count == 0,
        !m[id].marked_for_removal,
        1 <= j <= n,
        k < n,
    ensures
        ({
            let marked_midway = attached_n(
                marked(attached_n(m, id, j), id),
                id,
                (n - j) as nat,
            );
            &&& detached_n(marked_midway, id, k).contains_key(id)
            &&& detached_n(marked_midway, id, k)[id].attach_count == n - k
            &&& detached_n(marked_midway, id, n) == m.remove(id)
            &&& detached(detached_n(marked_midway, id, n), id) == m.remove(id)
        }),
{
    lemma_attached_n(m, id, j);
    let part = marked(attached_n(m, id, j), id);
    assert(part.contains_key(id));
    lemma_attached_n(part, id, (n - j) as nat);
    let marked_midway = attached_n(part, id, (n - j) as nat);
    assert(marked_midway[id].attach_count == n);
    assert(marked_midway[id].marked_for_removal);
    lemma_detached_n(marked_midway, id, k);
    lemma_detached_n(marked_midway, id, n);
    assert(marked_midway.remove(id) =~= m.remove(id));
}

/// The segments of one IPC namespace, and the source of attachment
/// identities.
pub struct ShmManager {
    segments: HashMap<usize, ShmSegment>,
    next_attach: usize,
}

impl View for ShmManager {
    type V = Map<ShmId, SegmentState>;

    closed spec fn view(&self) -> Map<ShmId, SegmentState> {
        Map::new(
            |id: ShmId| self.segments@.contains_key(id.0),
            |id: ShmId| self.segments@[id.0]@,
        )
    }
}

impl ShmManager {
    /// The identity that the next attach will be given.
    pub closed spec fn next_attachment(&self) -> nat {
        self.next_attach as nat
    }

    /// The representation is sound: no dead segment is kept, and no
    /// segment has more attachments than identities were given out.
    pub closed spec fn wf(&self) -> bool {
        forall|k: usize| #[trigger]
            self.segments@.contains_key(k) ==> {
                &&& !(self.segments@[k].marked_for_removal && self.segments@[k].attach_count == 0)
                &&& self.segments@[k].attach_count <= self.next_attach
            }
    }

    /// What the representation guarantees of the table it stands for.
    pub proof fn lemma_wf(&self)
        requires
            self.wf(),
        ensures
            no_dead_segment(self@),
            forall|id: ShmId| #[trigger]
                self@.contains_key(id) ==> self@[id].attach_count <= self.next_attachment(),
    {
        assert forall|id: ShmId| #[trigger] self@.contains_key(id) implies !(
        self@[id].marked_for_removal && self@[id].attach_count == 0) && self@[id].attach_count
            <= self.next_attachment() by {
            assert(self.segments@.contains_key(id.0));
        }
    }

    /// A manager without segments.
    pub fn new() -> (m: ShmManager)
        ensures
            m.wf(),
            m@ == Map::<ShmId, SegmentState>::empty(),
            m.next_attachment() == 0,
    {
        let m = ShmManager { segments: HashMap::new(), next_attach: 0 };
        assert(m@ =~= Map::<ShmId, SegmentState>::empty());
        m
    }

    /// Creates an unattached segment under `id`. Returns `false`, and
    /// changes nothing, where the identifier is in use.
    pub fn create(&mut self, id: ShmId, size: usize, flags: ShmFlags) -> (made: bool)
        requires
            old(self).wf(),
        ensures
            final(self).wf(),
            made == !old(self)@.contains_key(id),
            final(self)@ == created(old(self)@, id, size as nat, flags),
            final(self).next_attachment() == old(self).next_attachment(),
    {
        broadcast use vstd::std_specs::hash::group_hash_axioms;

        if self.segments.contains_key(&id.0) {
            return false;
        }
        let segment = ShmSegment { size, flags, marked_for_removal: false, attach_count: 0 };
        self.segments.insert(id.0, segment);
        assert(self@ =~= created(old(self)@, id, size as nat, flags)) by {
            assert forall|other: ShmId| #[trigger]
                self@.contains_key(other) <==> (other == id || old(self)@.contains_key(
                    other,
                )) by {
                assert(other == id <==> other.0 == id.0);
            }
        }
        true
    }

    /// The segment stored under `id`, if there is one.
    pub fn get(&self, id: ShmId) -> (r: Option<ShmSegment>)
        ensures
            r is Some <==> self@.contains_key(id),
            r matches Some(segment) ==> segment@ == self@[id],
    {
        broadcast use vstd::std_specs::hash::group_hash_axioms;

        match self.segments.get(&id.0) {
            Some(segment) => Some(*segment),
            None => None,
        }
    }

    /// Whether another attachment identity can be given out.
    pub fn can_attach(&self) -> (b: bool)
        ensures
            b == (self.next_attachment() < usize::MAX),
    {
        self.next_attach < usize::MAX
    }

    /// Counts one more attachment of segment `id`, and names it.
    pub fn attach(&mut self, id: ShmId) -> (r: Result<AttachmentId, ErrorKind>)
        requires
            old(self).wf(),
            old(self).next_attachment() < usize::MAX,
        ensures
            final(self).wf(),
            final(self)@ == attached(old(self)@, id),
            match r {
                Ok(attachment) => {
                    &&& old(self)@.contains_key(id)
                    &&& attachment.0 == old(self).next_attachment()
                    &&& final(self).next_attachment() == old(self).next_attachment() + 1
                },
                Err(e) => {
                    &&& e == ErrorKind::NotFound
                    &&& !old(self)@.contains_key(id)
                    &&& final(self).next_attachment() == old(self).next_attachment()
                },
            },
    {
        broadcast use vstd::std_specs::hash::group_hash_axioms;

        let segment = match self.segments.get(&id.0) {
            Some(segment) => *segment,
            None => {
                return Err(ErrorKind::NotFound);
            },
        };
        let attachment = AttachmentId(self.next_attach);
        let updated = ShmSegment { attach_count: segment.attach_count + 1, ..segment };
        self.segments.insert(id.0, updated);
        self.next_attach = self.next_attach + 1;
        assert(self@ =~= attached(old(self)@, id)) by {
            assert forall|other: ShmId| #[trigger]
                self@.contains_key(other) <==> old(self)@.contains_key(other) by {
                assert(other == id <==> other.0 == id.0);
            }
        }
        Ok(attachment)
    }

    /// As `attach`, for callers that cannot know whether an identity is
    /// left: `None`, with nothing changed, where none is.
    pub fn try_attach(&mut self, id: ShmId) -> (r: Option<Result<AttachmentId, ErrorKind>>)
        requires
            old(self).wf(),
        ensures
            final(self).wf(),
            r is Some <==> old(self).next_attachment() < usize::MAX,
            match r {
                Some(Ok(attachment)) => {
                    &&& old(self)@.contains_key(id)
                    &&& attachment.0 == old(self).next_attachment()
                    &&& final(self).next_attachment() == old(self).next_attachment() + 1
                    &&& final(self)@ == attached(old(self)@, id)
                },
                Some(Err(e)) => {
                    &&& e == ErrorKind::NotFound
                    &&& !old(self)@.contains_key(id)
                    &&& final(self).next_attachment() == old(self).next_attachment()
                    &&& final(self)@ == old(self)@
                },
                None => {
                    &&& final(self).next_attachment() == old(self).next_attachment()
                    &&& final(self)@ == old(self)@
                },
            },
    {
        if self.can_attach() {
            Some(self.attach(id))
        } else {
            None
        }
    }

    /// Counts one attachment of segment `id` less. A segment marked for
    /// removal is destroyed when its last attachment goes.
    pub fn detach(&mut self, id: ShmId) -> (r: Result<(), ErrorKind>)
        requires
            old(self).wf(),
        ensures
            final(self).wf(),
            final(self)@ == detached(old(self)@, id),
            final(self).next_attachment() == old(self).next_attachment(),
            r is Ok <==> old(self)@.contains_key(id),
            r matches Err(e) ==> e == ErrorKind::NotFound,
    {
        broadcast use vstd::std_specs::hash::group_hash_axioms;

        let segment = match self.segments.get(&id.0) {
            Some(segment) => *segment,
            None => {
                return Err(ErrorKind::NotFound);
            },
        };
        if segment.attach_count == 0 {
            return Ok(());
        }
        if segment.attach_count == 1 && segment.marked_for_removal {
            self.segments.remove(&id.0);
        } else {
            let updated = ShmSegment { attach_count: segment.attach_count - 1, ..segment };
            self.segments.insert(id.0, updated);
        }
        assert(self@ =~= detached(old(self)@, id)) by {
            assert forall|other: ShmId| other != id implies (#[trigger] self@.contains_key(other)
                <==> old(self)@.contains_key(other)) by {
                assert(other == id <==> other.0 == id.0);
            }
        }
        Ok(())
    }

    /// Detaches each attach event of `tags` from its segment, as an address
    /// space does when it goes. A segment that the manager does not know is
    /// passed over.
    pub fn release(&mut self, tags: &Vec<ShmTag>)
        requires
            old(self).wf(),
        ensures
            final(self).wf(),
            final(self)@ == released(old(self)@, tags@),
            final(self).next_attachment() == old(self).next_attachment(),
    {
        let mut k: usize = 0;
        while k < tags.len()
            invariant
                k <= tags@.len(),
                self.wf(),
                self@ == released(old(self)@, tags@.take(k as int)),
                self.next_attachment() == old(self).next_attachment(),
            decreases tags@.len() - k,
        {
            let _ = self.detach(tags[k].shm_id);
            k += 1;
            assert(tags@.take(k as int).drop_last() =~= tags@.take(k - 1));
        }
        assert(tags@.take(k as int) =~= tags@);
    }

    /// Asks for the removal of segment `id`: it is destroyed now if nothing
    /// is attached, else when its last attachment goes.
    pub fn mark_for_removal(&mut self, id: ShmId) -> (r: Result<(), ErrorKind>)
        requires
            old(self).wf(),
        ensures
            final(self).wf(),
            final(self)@ == marked(old(self)@, id),
            final(self).next_attachment() == old(self).next_attachment(),
            r is Ok <==> old(self)@.contains_key(id),
            r matches Err(e) ==> e == ErrorKind::NotFound,
    {
        broadcast use vstd::std_specs::hash::group_hash_axioms;

        let segment = match self.segments.get(&id.0) {
            Some(segment) => *segment,
            None => {
                return Err(ErrorKind::NotFound);
            },
        };
        if segment.attach_count == 0 {
            self.segments.remove(&id.0);
        } else {
            let updated = ShmSegment { marked_for_removal: true, ..segment };
            self.segments.insert(id.0, updated);
        }
        assert(self@ =~= marked(old(self)@, id)) by {
            assert forall|other: ShmId| other != id implies (#[trigger] self@.contains_key(other)
                <==> old(self)@.contains_key(other)) by {
                assert(other == id <==> other.0 == id.0);
            }
        }
        Ok(())
    }
}

} // verus!
