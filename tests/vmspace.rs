use vanadinite::capabilities::{CapabilityPtr, CapabilityRights};
use vanadinite::error::KError;
use vanadinite::vmspace::{HandoffMessage, Tid, Vmspace, VmspaceObjectId};

#[test]
fn vmspace_handoff_order() {
    let mut vs = Vmspace::new(VmspaceObjectId(1));
    vs.grant("stdin", CapabilityPtr(11), CapabilityRights::read_write());
    vs.grant("stdout", CapabilityPtr(12), CapabilityRights::write());
    let (tid, channel, msgs) = vs.spawn(Ok((Tid(9), CapabilityPtr(3)))).unwrap();
    assert_eq!(tid, Tid(9));
    assert_eq!(channel, CapabilityPtr(3));
    assert_eq!(
        msgs,
        vec![
            HandoffMessage::Bytes("stdin".to_string()),
            HandoffMessage::Capability(CapabilityPtr(11), CapabilityRights::read_write()),
            HandoffMessage::Bytes("stdout".to_string()),
            HandoffMessage::Capability(CapabilityPtr(12), CapabilityRights::write()),
            HandoffMessage::Bytes("done".to_string()),
        ]
    );
}

#[test]
fn handoff_without_grants_is_done_alone() {
    let vs = Vmspace::new(VmspaceObjectId(2));
    assert_eq!(vs.handoff_messages(), vec![HandoffMessage::Bytes("done".to_string())]);
}

#[test]
fn handoff_has_two_messages_per_grant() {
    let mut vs = Vmspace::new(VmspaceObjectId(2));
    for i in 0..5usize {
        vs.grant("cap", CapabilityPtr(i), CapabilityRights::new(1));
    }
    let msgs = vs.handoff_messages();
    assert_eq!(msgs.len(), 11);
    assert_eq!(msgs[7], HandoffMessage::Capability(CapabilityPtr(3), CapabilityRights::new(1)));
}

#[test]
fn failed_spawn_passes_the_error() {
    let vs = Vmspace::new(VmspaceObjectId(3));
    assert_eq!(vs.spawn(Err(KError::InvalidCapability)).err(), Some(KError::InvalidCapability));
}

#[test]
fn vmspace_object_addresses() {
    let vs = Vmspace::new(VmspaceObjectId(4));
    assert_eq!(vs.id(), VmspaceObjectId(4));
    let m = vs.object_mapping(0x1_0000, 0x2000, 3);
    assert_eq!(m.size, 0x2000);
    let obj = vs.create_object(0x2000, Ok((0xA000, 0x1_0000))).unwrap();
    assert_eq!(obj.vmspace_address(), 0x1_0000);
    assert_eq!(obj.as_slice(), (0xA000, 0x2000));
    assert_eq!(vs.create_object(0x2000, Err(KError::OutOfMemory)).err(), Some(KError::OutOfMemory));
}
