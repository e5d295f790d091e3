//! What the dispatcher reads of an inbound frame: the identifier it arrived
//! under, and whether it is the answer to a discovery request.

use vstd::prelude::*;
use crate::info::{DeviceInfo, DeviceType, ModelId};

verus! {

/// The identifier that a frame of this manufacturer arrives under, field by
/// field.
#[derive(Debug, Clone, Copy, PartialEq, Eq, Structural)]
pub struct FrameId {
    pub device_type: u8,
    pub fragment_flag: bool,
    pub ack_flag: bool,
    pub api_class: u8,
    pub api_index: u8,
    pub device_id: u8,
}

/// The identifier as it stands on the bus, before its fields are packed into
/// one word.
#[derive(Debug, Clone, Copy, PartialEq, Eq, Structural)]
pub struct WireId {
    pub device_type: u8,
    pub manufacturer: u8,
    pub api_class: u8,
    pub api_index: u8,
    pub device_id: u8,
}

/// A flag as a bit.
pub open spec fn bit(flag: bool) -> u8 {
    if flag {
        1u8
    } else {
        0u8
    }
}

/// The bus identifier of a frame identifier: the manufacturer is 6, and the
/// two flags ride in bits 4 and 5 of the class, above its low four bits.
pub open spec fn spec_wire_id(id: FrameId) -> WireId {
    WireId {
        device_type: id.device_type,
        manufacturer: 6u8,
        api_class: (id.api_class & 0b1111u8) | (bit(id.ack_flag) << 4u8) | (bit(id.fragment_flag)
            << 5u8),
        api_index: id.api_index,
        device_id: id.device_id,
    }
}

/// The word that a bus identifier packs into: from the low end six bits of
/// device number, four of index, six of class, eight of manufacturer and
/// five of device type.
pub open spec fn spec_packed(wire: WireId) -> u32 {
    (wire.device_id as u32 & 0b111111u32) | ((wire.api_index as u32 & 0b1111u32) << 6u32) | ((
    wire.api_class as u32 & 0b111111u32) << 10u32) | ((wire.manufacturer as u32 & 0b11111111u32)
        << 16u32) | ((wire.device_type as u32 & 0b11111u32) << 24u32)
}

/// The 32-bit message identifier that replies are correlated by.
pub open spec fn spec_message_identifier(id: FrameId) -> u32 {
    spec_packed(spec_wire_id(id))
}

/// Calls `MessageId::from(GrappleMessageId)` of `grapple_frc_msgs`.
///
/// Not proved, but taken from that function's source: the result has the
/// device type, index and device number of the argument, manufacturer 6,
/// and as class the argument's low four class bits with the acknowledge
/// flag in bit 4 and the fragment flag in bit 5.
#[verifier::external_body]
fn wire_id(id: &FrameId) -> (wire: WireId)
    ensures
        wire == spec_wire_id(*id),
{
    let FrameId { device_type, fragment_flag, ack_flag, api_class, api_index, device_id } = *id;
    let wire = grapple_frc_msgs::MessageId::from(
        grapple_frc_msgs::grapple::GrappleMessageId {
            device_type, fragment_flag, ack_flag, api_class, api_index, device_id,
        },
    );
    let grapple_frc_msgs::MessageId { device_type, manufacturer, api_class, api_index, device_id } = wire;
    WireId { device_type, manufacturer, api_class, api_index, device_id }
}

/// Calls `u32::from(MessageId)` of `grapple_frc_msgs`.
///
/// Not proved, but taken from that function's source: the result is the
/// five fields, each cut to its width, side by side as `spec_packed` lays
/// them out.
#[verifier::external_body]
fn packed(wire: &WireId) -> (raw: u32)
    ensures
        raw == spec_packed(*wire),
{
    let WireId { device_type, manufacturer, api_class, api_index, device_id } = *wire;
    u32::from(
        grapple_frc_msgs::MessageId { device_type, manufacturer, api_class, api_index, device_id },
    )
}

impl FrameId {
    /// The 32-bit message identifier of frames that arrive under this
    /// identifier.
    pub fn message_identifier(&self) -> (raw: u32)
        ensures
            raw == spec_message_identifier(*self),
    {
        let wire = wire_id(self);
        packed(&wire)
    }
}

/// What a frame carries, as far as the dispatcher looks.
#[derive(Debug, Clone, PartialEq, Eq)]
pub enum Payload {
    /// A device's answer to a discovery request.
    EnumerateResponse {
        model_id: ModelId,
        serial: u32,
        is_dfu: bool,
        is_dfu_in_progress: bool,
        version: String,
        name: String,
    },
    /// Anything else; the drivers read it, the dispatcher does not.
    Other,
}

/// An inbound frame: the bus address it came from and what it carries.
#[derive(Debug, Clone, PartialEq, Eq)]
pub struct Frame {
    pub device_id: u8,
    pub payload: Payload,
}

impl Frame {
    /// The snapshot that the frame announces, if it answers a discovery
    /// request: version, serial, name and bus address are all present in it.
    pub open spec fn spec_announcement(self) -> Option<DeviceInfo> {
        match self.payload {
            Payload::EnumerateResponse {
                model_id,
                serial,
                is_dfu,
                is_dfu_in_progress,
                version,
                name,
            } => Some(
                DeviceInfo {
                    device_type: DeviceType::Grapple(model_id),
                    firmware_version: Some(version),
                    serial: Some(serial),
                    is_dfu,
                    is_dfu_in_progress,
                    name: Some(name),
                    device_id: Some(self.device_id),
                },
            ),
            Payload::Other => None,
        }
    }

    /// The snapshot that the frame announces, if it answers a discovery
    /// request.
    pub fn announcement(self) -> (info: Option<DeviceInfo>)
        ensures
            info == self.spec_announcement(),
    {
        let device_id = self.device_id;
        match self.payload {
            Payload::EnumerateResponse {
                model_id,
                serial,
                is_dfu,
                is_dfu_in_progress,
                version,
                name,
            } => Some(
                DeviceInfo {
                    device_type: DeviceType::Grapple(model_id),
                    firmware_version: Some(version),
                    serial: Some(serial),
                    is_dfu,
                    is_dfu_in_progress,
                    name: Some(name),
                    device_id: Some(device_id),
                },
            ),
            Payload::Other => None,
        }
    }
}

} // verus!
