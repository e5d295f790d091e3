//! What a device says about itself when it answers a discovery request.

use vstd::prelude::*;
use crate::identity::DeviceId;

verus! {

/// The hardware models that can announce themselves.
#[derive(Debug, Clone, Copy, PartialEq, Eq, Hash, Structural)]
pub enum ModelId {
    LaserCan,
    SpiderLan,
    FlexiCAN,
    MitoCANdria,
}

/// The family and model of a device.
#[derive(Debug, Clone, Copy, PartialEq, Eq, Hash, Structural)]
pub enum DeviceType {
    Grapple(ModelId),
}

/// The latest announced snapshot of one device. A fresh announcement replaces
/// it as a whole; between announcements it does not change.
#[derive(Debug, Clone, PartialEq, Eq)]
pub struct DeviceInfo {
    pub device_type: DeviceType,
    pub firmware_version: Option<String>,
    pub serial: Option<u32>,
    pub is_dfu: bool,
    pub is_dfu_in_progress: bool,
    pub name: Option<String>,
    pub device_id: Option<u8>,
}

/// A copy of an optional string.
fn copy_text(text: &Option<String>) -> (out: Option<String>)
    ensures
        out == *text,
{
    match text {
        Some(s) => Some(s.clone()),
        None => None,
    }
}

impl DeviceInfo {
    /// The identity that this snapshot announces. Meaningful only where the
    /// snapshot carries a serial number.
    pub open spec fn spec_identity(&self) -> DeviceId {
        DeviceId::spec_announced(self.is_dfu, self.serial->Some_0)
    }

    /// The identity that this snapshot announces.
    #[verifier::when_used_as_spec(spec_identity)]
    pub fn identity(&self) -> (id: DeviceId)
        requires
            self.serial is Some,
        ensures
            id == self.spec_identity(),
    {
        match self.serial {
            Some(serial) => DeviceId::announced(self.is_dfu, serial),
            None => DeviceId::announced(self.is_dfu, 0),
        }
    }

    /// An independent copy of this snapshot, equal to it field by field.
    pub fn snapshot(&self) -> (copy: DeviceInfo)
        ensures
            copy == *self,
    {
        DeviceInfo {
            device_type: self.device_type,
            firmware_version: copy_text(&self.firmware_version),
            serial: self.serial,
            is_dfu: self.is_dfu,
            is_dfu_in_progress: self.is_dfu_in_progress,
            name: copy_text(&self.name),
            device_id: self.device_id,
        }
    }
}

} // verus!
