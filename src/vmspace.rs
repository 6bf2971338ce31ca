use vstd::prelude::*;

use crate::capabilities::{CapabilityPtr, CapabilityRights};
use crate::error::KError;

verus! {

/// The kernel's name for an address space under construction.
#[derive(Debug, Clone, Copy, PartialEq, Eq, Structural)]
pub struct VmspaceObjectId(pub usize);

/// A task id.
#[derive(Debug, Clone, Copy, PartialEq, Eq, Structural)]
pub struct Tid(pub usize);

/// What a task asks the kernel for when it adds memory to a vmspace: `size`
/// bytes at `address` in the child, with `permissions`.
#[derive(Debug, Clone, Copy, PartialEq, Eq, Structural)]
pub struct VmspaceObjectMapping {
    pub address: usize,
    pub size: usize,
    pub permissions: u8,
}

/// One message of the hand-off that follows a spawn.
#[derive(Debug, Clone, PartialEq, Eq)]
pub enum HandoffMessage {
    /// A message whose body is these bytes.
    Bytes(String),
    /// A capability sent with these rights.
    Capability(CapabilityPtr, CapabilityRights),
}

/// The body that ends the hand-off.
pub open spec fn done_word() -> Seq<char> {
    seq!['d', 'o', 'n', 'e']
}

pub open spec fn is_bytes(m: HandoffMessage, body: Seq<char>) -> bool {
    match m {
        HandoffMessage::Bytes(s) => s@ == body,
        HandoffMessage::Capability(..) => false,
    }
}

/// `msgs` is the hand-off of `grants`: for each grant in order its name, then
/// its capability with its rights; then `done`.
pub open spec fn is_handoff(msgs: Seq<HandoffMessage>, grants: Seq<(Seq<char>, CapabilityPtr, CapabilityRights)>) -> bool {
    &&& msgs.len() == 2 * grants.len() + 1
    &&& forall|i: int|
        0 <= i < grants.len() ==> is_bytes(#[trigger] msgs[2 * i], grants[i].0) && msgs[2 * i + 1]
            == HandoffMessage::Capability(grants[i].1, grants[i].2)
    &&& is_bytes(msgs[2 * grants.len() as int], done_word())
}

/// An address space that is not yet running, and the capabilities that it
/// is to receive once it runs.
pub struct Vmspace {
    id: VmspaceObjectId,
    caps_to_send: Vec<(String, CapabilityPtr, CapabilityRights)>,
}

/// Memory mapped both in the creator, at `mapped_address`, and in the child
/// at `vmspace_address`.
#[derive(Debug, Clone, Copy, PartialEq, Eq, Structural)]
pub struct VmspaceObject {
    pub vmspace_address: usize,
    pub mapped_address: usize,
    pub size: usize,
}

impl Vmspace {
    pub closed spec fn id_spec(&self) -> VmspaceObjectId {
        self.id
    }

    /// The grants so far, in order: name, capability, rights.
    pub closed spec fn grants(&self) -> Seq<(Seq<char>, CapabilityPtr, CapabilityRights)> {
        self.caps_to_send@.map_values(|g: (String, CapabilityPtr, CapabilityRights)| (g.0@, g.1, g.2))
    }

    /// The vmspace that the kernel created under `id`, with no grant yet.
    pub fn new(id: VmspaceObjectId) -> (r: Self)
        ensures
            r.id_spec() == id,
            r.grants().len() == 0,
    {
        let r = Vmspace { id, caps_to_send: Vec::new() };
        assert(r.grants() =~= Seq::empty());
        r
    }

    pub fn id(&self) -> (r: VmspaceObjectId)
        ensures
            r == self.id_spec(),
    {
        self.id
    }

    /// Records that the child is to receive `cptr` with `rights` under
    /// `name`; nothing is sent before `spawn`.
    pub fn grant(&mut self, name: &str, cptr: CapabilityPtr, rights: CapabilityRights)
        ensures
            final(self).id_spec() == old(self).id_spec(),
            final(self).grants() == old(self).grants().push((name@, cptr, rights)),
    {
        let owned = name.to_owned();
        self.caps_to_send.push((owned, cptr, rights));
        assert(self.grants() =~= old(self).grants().push((name@, cptr, rights)));
    }

    /// The request that adds `size` bytes at `address` in the child.
    pub fn object_mapping(&self, address: usize, size: usize, permissions: u8) -> (r: VmspaceObjectMapping)
        ensures
            r == (VmspaceObjectMapping { address, size, permissions }),
    {
        VmspaceObjectMapping { address, size, permissions }
    }

    /// The object of `size` bytes from the kernel's `reply`
    /// `(ours, theirs)` to `object_mapping`; its error passes through.
    pub fn create_object(&self, size: usize, reply: Result<(usize, usize), KError>) -> (r: Result<
        VmspaceObject,
        KError,
    >)
        ensures
            match reply {
                Err(e) => r == Err::<VmspaceObject, KError>(e),
                Ok((ours, theirs)) => r == Ok::<VmspaceObject, KError>(
                    VmspaceObject { vmspace_address: theirs, mapped_address: ours, size },
                ),
            },
    {
        match reply {
            Ok((ours, theirs)) => Ok(VmspaceObject { vmspace_address: theirs, mapped_address: ours, size }),
            Err(e) => Err(e),
        }
    }

    /// The messages that hand the grants to the child, in order.
    pub fn handoff_messages(&self) -> (r: Vec<HandoffMessage>)
        ensures
            is_handoff(r@, self.grants()),
    {
        let mut msgs: Vec<HandoffMessage> = Vec::new();
        let mut i: usize = 0;
        while i < self.caps_to_send.len()
            invariant
                i <= self.caps_to_send@.len(),
                msgs@.len() == 2 * i,
                forall|j: int|
                    0 <= j < i ==> is_bytes(#[trigger] msgs@[2 * j], self.grants()[j].0) && msgs@[2 * j + 1]
                        == HandoffMessage::Capability(self.grants()[j].1, self.grants()[j].2),
            decreases self.caps_to_send@.len() - i,
        {
            let name = self.caps_to_send[i].0.clone();
            let cap = self.caps_to_send[i].1;
            let rights = self.caps_to_send[i].2;
            let ghost before = msgs@;
            msgs.push(HandoffMessage::Bytes(name));
            msgs.push(HandoffMessage::Capability(cap, rights));
            proof {
                assert forall|j: int|
                    0 <= j < i + 1 implies is_bytes(#[trigger] msgs@[2 * j], self.grants()[j].0) && msgs@[2 * j
                        + 1] == HandoffMessage::Capability(self.grants()[j].1, self.grants()[j].2) by {
                    if j < i {
                        assert(msgs@[2 * j] == before[2 * j]);
                        assert(msgs@[2 * j + 1] == before[2 * j + 1]);
                    }
                }
            }
            i = i + 1;
        }
        let done = "done".to_owned();
        proof {
            reveal_strlit("done");
            assert(done@ =~= done_word());
        }
        msgs.push(HandoffMessage::Bytes(done));
        proof {
            assert forall|j: int|
                0 <= j < self.grants().len() implies is_bytes(#[trigger] msgs@[2 * j], self.grants()[j].0)
                    && msgs@[2 * j + 1] == HandoffMessage::Capability(self.grants()[j].1, self.grants()[j].2) by {
                assert(msgs@[2 * j] == msgs@.drop_last()[2 * j]);
                assert(msgs@[2 * j + 1] == msgs@.drop_last()[2 * j + 1]);
            }
        }
        msgs
    }

    /// Completes a spawn from the kernel's `reply` `(task, channel)`: its
    /// error passes through; otherwise the task, the channel to it, and the
    /// hand-off that the creator sends on that channel, in order.
    pub fn spawn(self, reply: Result<(Tid, CapabilityPtr), KError>) -> (r: Result<
        (Tid, CapabilityPtr, Vec<HandoffMessage>),
        KError,
    >)
        ensures
            match reply {
                Err(e) => r == Err::<(Tid, CapabilityPtr, Vec<HandoffMessage>), KError>(e),
                Ok((tid, cptr)) => r is Ok && r->Ok_0.0 == tid && r->Ok_0.1 == cptr && is_handoff(
                    r->Ok_0.2@,
                    self.grants(),
                ),
            },
    {
        match reply {
            Err(e) => Err(e),
            Ok((tid, cptr)) => {
                let msgs = self.handoff_messages();
                Ok((tid, cptr, msgs))
            },
        }
    }
}

impl VmspaceObject {
    /// Where the child sees the memory.
    pub fn vmspace_address(&self) -> (r: usize)
        ensures
            r == self.vmspace_address,
    {
        self.vmspace_address
    }

    /// Where the creator writes the memory: base address and length.
    pub fn as_slice(&self) -> (r: (usize, usize))
        ensures
            r == (self.mapped_address, self.size),
    {
        (self.mapped_address, self.size)
    }
}

} // verus!
