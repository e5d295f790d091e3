use grapple_devices::identity::DeviceId;
use grapple_devices::info::{DeviceInfo, DeviceType, ModelId};

fn info(is_dfu: bool, serial: u32) -> DeviceInfo {
    DeviceInfo {
        device_type: DeviceType::Grapple(ModelId::LaserCan),
        firmware_version: Some("2024.1.0".to_string()),
        serial: Some(serial),
        is_dfu,
        is_dfu_in_progress: false,
        name: Some("front".to_string()),
        device_id: Some(3),
    }
}

#[test]
fn the_two_modes_of_a_serial_are_different_identities() {
    assert_ne!(DeviceId::Dfu(7), DeviceId::Serial(7));
    assert_eq!(DeviceId::Dfu(7).counterpart(), DeviceId::Serial(7));
    assert_eq!(DeviceId::Serial(7).counterpart(), DeviceId::Dfu(7));
    assert_eq!(DeviceId::Serial(7).counterpart().counterpart(), DeviceId::Serial(7));
}

#[test]
fn an_identity_gives_its_serial_and_mode() {
    assert_eq!(DeviceId::Serial(7).serial(), 7);
    assert_eq!(DeviceId::Dfu(u32::MAX).serial(), u32::MAX);
    assert!(DeviceId::Dfu(7).is_dfu());
    assert!(!DeviceId::Serial(7).is_dfu());
}

#[test]
fn an_announcement_names_the_identity_by_flag_and_serial() {
    assert_eq!(DeviceId::announced(true, 9), DeviceId::Dfu(9));
    assert_eq!(DeviceId::announced(false, 9), DeviceId::Serial(9));
    assert_eq!(info(false, 0x1234).identity(), DeviceId::Serial(0x1234));
    assert_eq!(info(true, 0x1234).identity(), DeviceId::Dfu(0x1234));
}

#[test]
fn a_snapshot_copy_is_equal_and_independent() {
    let first = info(false, 11);
    let mut copy = first.snapshot();
    assert_eq!(copy, first);
    copy.name = Some("rear".to_string());
    assert_eq!(first.name, Some("front".to_string()));
    assert_ne!(copy, first);
}
