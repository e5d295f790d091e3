use grapple_devices::frame::{Frame, FrameId, Payload};
use grapple_devices::info::{DeviceInfo, DeviceType, ModelId};

fn id(device_type: u8, fragment_flag: bool, ack_flag: bool, api_class: u8, api_index: u8, device_id: u8) -> FrameId {
    FrameId { device_type, fragment_flag, ack_flag, api_class, api_index, device_id }
}

#[test]
fn the_message_identifier_packs_the_fields_side_by_side() {
    // 5 | 1 << 6 | (2 | 1 << 4) << 10 | 6 << 16 | 6 << 24
    assert_eq!(id(6, false, true, 2, 1, 5).message_identifier(), 101_075_013);
    assert_eq!(id(6, false, true, 2, 1, 5).message_identifier(), 0x0606_4845);
}

#[test]
fn the_message_identifier_of_an_all_zero_identifier_is_the_manufacturer_alone() {
    assert_eq!(id(0, false, false, 0, 0, 0).message_identifier(), 6 << 16);
}

#[test]
fn the_flags_ride_above_the_class() {
    let plain = id(0, false, false, 0, 0, 0).message_identifier();
    assert_eq!(id(0, false, true, 0, 0, 0).message_identifier(), plain | (1 << 14));
    assert_eq!(id(0, true, false, 0, 0, 0).message_identifier(), plain | (1 << 15));
    assert_eq!(id(0, true, true, 0xF, 0, 0).message_identifier(), plain | (0x3F << 10));
}

#[test]
fn each_field_is_cut_to_its_width() {
    assert_eq!(id(0xFF, true, true, 0xFF, 0xFF, 0xFF).message_identifier(), 0x1F06_FFFF);
    // Class bits 4 and 5 belong to the flags, whatever the class field holds.
    assert_eq!(id(0, false, false, 0xF0, 0, 0).message_identifier(), 6 << 16);
    assert_eq!(id(0x20, false, false, 0, 0x10, 0x40).message_identifier(), 6 << 16);
}

#[test]
fn the_discovery_answer_identifier_is_the_known_one() {
    // Broadcast device type, class 0, index 1, from the broadcast address.
    assert_eq!(id(0, false, false, 0, 1, 0x3F).message_identifier(), 0x0006_007F);
}

#[test]
fn a_discovery_answer_announces_a_full_snapshot() {
    let frame = Frame {
        device_id: 12,
        payload: Payload::EnumerateResponse {
            model_id: ModelId::MitoCANdria,
            serial: 0xBEEF,
            is_dfu: true,
            is_dfu_in_progress: true,
            version: "2025.0.1".to_string(),
            name: "pdp".to_string(),
        },
    };
    assert_eq!(
        frame.announcement(),
        Some(DeviceInfo {
            device_type: DeviceType::Grapple(ModelId::MitoCANdria),
            firmware_version: Some("2025.0.1".to_string()),
            serial: Some(0xBEEF),
            is_dfu: true,
            is_dfu_in_progress: true,
            name: Some("pdp".to_string()),
            device_id: Some(12),
        })
    );
}

#[test]
fn any_other_frame_announces_nothing() {
    assert_eq!(Frame { device_id: 12, payload: Payload::Other }.announcement(), None);
}
