//! How a physical device is named on the bus.

use vstd::prelude::*;

verus! {

/// The logical address of a device: its serial number, tagged by the mode the
/// unit is running in. The same serial in the two modes is two different
/// identities, because a different kind of driver serves each.
#[derive(Debug, Clone, Copy, PartialEq, Eq, Hash, Structural)]
pub enum DeviceId {
    /// The unit is in firmware-recovery mode.
    Dfu(u32),
    /// The unit is running its application firmware.
    Serial(u32),
}

impl DeviceId {
    /// The serial number, whatever the mode.
    pub open spec fn spec_serial(self) -> u32 {
        match self {
            DeviceId::Dfu(s) => s,
            DeviceId::Serial(s) => s,
        }
    }

    /// The identity that the same unit has in the other mode.
    pub open spec fn spec_counterpart(self) -> DeviceId {
        match self {
            DeviceId::Dfu(s) => DeviceId::Serial(s),
            DeviceId::Serial(s) => DeviceId::Dfu(s),
        }
    }

    /// The identity announced by a unit with this serial and recovery flag.
    pub open spec fn spec_announced(is_dfu: bool, serial: u32) -> DeviceId {
        if is_dfu {
            DeviceId::Dfu(serial)
        } else {
            DeviceId::Serial(serial)
        }
    }

    pub fn announced(is_dfu: bool, serial: u32) -> (id: DeviceId)
        ensures
            id == Self::spec_announced(is_dfu, serial),
    {
        if is_dfu {
            DeviceId::Dfu(serial)
        } else {
            DeviceId::Serial(serial)
        }
    }

    #[verifier::when_used_as_spec(spec_serial)]
    pub fn serial(self) -> (s: u32)
        ensures
            s == self.spec_serial(),
    {
        match self {
            DeviceId::Dfu(s) => s,
            DeviceId::Serial(s) => s,
        }
    }

    pub fn is_dfu(self) -> (b: bool)
        ensures
            b == (self is Dfu),
    {
        match self {
            DeviceId::Dfu(_) => true,
            DeviceId::Serial(_) => false,
        }
    }

    #[verifier::when_used_as_spec(spec_counterpart)]
    pub fn counterpart(self) -> (other: DeviceId)
        ensures
            other == self.spec_counterpart(),
    {
        match self {
            DeviceId::Dfu(s) => DeviceId::Serial(s),
            DeviceId::Serial(s) => DeviceId::Dfu(s),
        }
    }
}

} // verus!
