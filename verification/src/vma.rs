use crate::addr::VirtRegion;
use vstd::prelude::*;

verus! {

/// Protection and sharing attributes of a mapping.
#[derive(Clone, Copy, Debug, PartialEq, Eq, Structural)]
pub struct VmFlags {
    pub read: bool,
    pub write: bool,
    pub execute: bool,
    pub shared: bool,
}

/// The identifier of a shared-memory segment.
#[derive(Clone, Copy, Debug, PartialEq, Eq, Structural)]
pub struct ShmId(pub usize);

/// The identity of one attach event. A process may attach one segment
/// several times; each attach gets an identity of its own.
#[derive(Clone, Copy, Debug, PartialEq, Eq, Structural)]
pub struct AttachmentId(pub usize);

/// What ties a region to the attach event that made it.
#[derive(Clone, Copy, Debug, PartialEq, Eq, Structural)]
pub struct ShmTag {
    pub shm_id: ShmId,
    pub shm_attach: AttachmentId,
}

/// A region descriptor: one contiguous virtual range and how it is mapped.
#[derive(Clone, Copy, Debug, PartialEq, Eq, Structural)]
pub struct Vma {
    pub region: VirtRegion,
    pub flags: VmFlags,
    /// The segment that the region maps, `None` for a private mapping.
    pub shm_id: Option<ShmId>,
    /// The attach event that the region came from.
    pub shm_attach: Option<AttachmentId>,
}

impl Vma {
    /// The tag of a shared-memory region: present when the descriptor holds
    /// both a segment and an attachment identity.
    pub open spec fn tag(&self) -> Option<ShmTag> {
        match (self.shm_id, self.shm_attach) {
            (Some(shm_id), Some(shm_attach)) => Some(ShmTag { shm_id, shm_attach }),
            _ => None,
        }
    }

    /// Whether the region came from the attach event `tag`.
    pub open spec fn tagged(&self, tag: ShmTag) -> bool {
        self.shm_id == Some(tag.shm_id) && self.shm_attach == Some(tag.shm_attach)
    }

    /// A private mapping of `region`.
    pub fn new(region: VirtRegion, flags: VmFlags) -> (v: Vma)
        ensures
            v == (Vma { region, flags, shm_id: None, shm_attach: None }),
    {
        Vma { region, flags, shm_id: None, shm_attach: None }
    }

    /// A mapping of `region` onto the segment and attach event of `tag`.
    pub fn new_shm(region: VirtRegion, flags: VmFlags, tag: ShmTag) -> (v: Vma)
        ensures
            v == (Vma {
                region,
                flags,
                shm_id: Some(tag.shm_id),
                shm_attach: Some(tag.shm_attach),
            }),
            v.tag() == Some(tag),
    {
        Vma { region, flags, shm_id: Some(tag.shm_id), shm_attach: Some(tag.shm_attach) }
    }

    pub fn shm_tag(&self) -> (t: Option<ShmTag>)
        ensures
            t == self.tag(),
    {
        match (self.shm_id, self.shm_attach) {
            (Some(shm_id), Some(shm_attach)) => Some(ShmTag { shm_id, shm_attach }),
            _ => None,
        }
    }

    pub fn has_tag(&self, tag: ShmTag) -> (b: bool)
        ensures
            b == self.tagged(tag),
    {
        let same_id = match self.shm_id {
            Some(id) => id.0 == tag.shm_id.0,
            None => false,
        };
        let same_attach = match self.shm_attach {
            Some(a) => a.0 == tag.shm_attach.0,
            None => false,
        };
        same_id && same_attach
    }
}

} // verus!
