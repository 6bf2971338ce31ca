use vanadinite::addr::PhysicalAddress;
use vanadinite::boot::{exit_code, memory_region, ExitStatus};
use vanadinite::util::{CStr, DebugBytesAt, PtrUtils};

#[test]
fn exit_codes() {
    assert_eq!(exit_code(ExitStatus::Pass), 0x5555);
    assert_eq!(exit_code(ExitStatus::Fail(1)), 0x1_3333);
    assert_eq!(exit_code(ExitStatus::Fail(0)), 0x3333);
}

#[test]
fn memory_reg_is_two_big_endian_words() {
    let reg = [0u8, 0, 0, 0, 0x80, 0, 0, 0, 0, 0, 0, 0, 0x08, 0, 0, 0];
    assert_eq!(memory_region(&reg), Some((0x8000_0000, 0x0800_0000)));
    assert_eq!(memory_region(&reg[..12]), None);
}

#[test]
fn cstr_length_stops_at_nul() {
    let s = CStr::new(b"hello\0world".to_vec());
    assert_eq!(s.len(), 5);
    assert!(!s.is_empty());
    assert_eq!(s.bytes(), b"hello".to_vec());
    assert_eq!(s.as_slice(), b"hello".to_vec());
    assert!(CStr::new(vec![0, 1]).is_empty());
    assert_eq!(CStr::new(b"abc".to_vec()).len(), 3);
}

#[test]
fn alignment_helpers() {
    assert!(0x1000usize.assert_aligned(0x1000));
    assert!(!0x1001usize.assert_aligned(8));
    assert_eq!(0x1001usize.align_up(0x1000), Some(0x2000));
    assert_eq!(0x2000usize.align_up(0x1000), Some(0x2000));
    assert_eq!(usize::MAX.align_up(16), None);
}

#[test]
fn physical_address_arithmetic() {
    let p = PhysicalAddress::new(0x1000);
    assert_eq!(p.offset(0x20), PhysicalAddress(0x1020));
    assert_eq!(p.as_usize(), 0x1000);
    assert_eq!(p.as_ptr(), 0x1000);
    assert_eq!(p.as_mut_ptr(), 0x1000);
}

#[test]
fn debug_bytes_dump() {
    let mut bytes = b"Hello, world!".to_vec();
    bytes.extend_from_slice(&[0x00, 0x0A, 0xFF]);
    let d = DebugBytesAt::new(0x1000, bytes);
    let text = String::from_utf8(d.dump()).unwrap();
    assert_eq!(
        text,
        "48 65 6c 6c 6f 2c 20 77 6f 72 6c 64 21 00 0a ff   |  Hello, world!   "
    );
}
