//! Which kind of driver serves a newly discovered device.

use vstd::prelude::*;
use crate::identity::DeviceId;
use crate::info::{DeviceType, ModelId};

verus! {

/// The driver to construct for a device that was not known before.
#[derive(Debug, Clone, Copy, PartialEq, Eq, Structural)]
pub enum DriverKind {
    /// The generic firmware-upgrade driver, which writes the model's flash in
    /// blocks of `block_size` bytes.
    FirmwareUpgrade { model: ModelId, block_size: usize },
    /// The model's own driver, or a restricted stand-in for it where the
    /// announced firmware version does not fit the driver.
    VersionGated { model: ModelId },
}

impl ModelId {
    /// The flash block size of the models that a driver exists for.
    pub open spec fn spec_flash_block_size(self) -> Option<usize> {
        match self {
            ModelId::LaserCan => Some(8usize),
            ModelId::MitoCANdria => Some(64usize),
            ModelId::SpiderLan => None,
            ModelId::FlexiCAN => None,
        }
    }

    #[verifier::when_used_as_spec(spec_flash_block_size)]
    pub fn flash_block_size(self) -> (size: Option<usize>)
        ensures
            size == self.spec_flash_block_size(),
    {
        match self {
            ModelId::LaserCan => Some(8),
            ModelId::MitoCANdria => Some(64),
            ModelId::SpiderLan => None,
            ModelId::FlexiCAN => None,
        }
    }
}

impl DeviceType {
    /// The model behind the type.
    pub open spec fn spec_model(self) -> ModelId {
        match self {
            DeviceType::Grapple(model) => model,
        }
    }

    #[verifier::when_used_as_spec(spec_model)]
    pub fn model(self) -> (model: ModelId)
        ensures
            model == self.spec_model(),
    {
        match self {
            DeviceType::Grapple(model) => model,
        }
    }

    /// Whether a driver exists for devices of this type.
    pub open spec fn spec_is_supported(self) -> bool {
        self.spec_model().spec_flash_block_size() is Some
    }

    #[verifier::when_used_as_spec(spec_is_supported)]
    pub fn is_supported(self) -> (yes: bool)
        ensures
            yes == self.spec_is_supported(),
    {
        self.model().flash_block_size().is_some()
    }
}

impl DriverKind {
    /// The driver for a device with identity `id` and type `device_type`:
    /// the firmware-upgrade driver for a unit in recovery mode, the model's
    /// gated driver otherwise; none where no driver exists for the type.
    pub open spec fn spec_select(id: DeviceId, device_type: DeviceType) -> Option<DriverKind> {
        let model = device_type.spec_model();
        match model.spec_flash_block_size() {
            Some(block_size) => match id {
                DeviceId::Dfu(_) => Some(DriverKind::FirmwareUpgrade { model, block_size }),
                DeviceId::Serial(_) => Some(DriverKind::VersionGated { model }),
            },
            None => None,
        }
    }

    /// Chooses the driver for an unseen device by its mode and model.
    #[verifier::when_used_as_spec(spec_select)]
    pub fn select(id: DeviceId, device_type: DeviceType) -> (kind: Option<DriverKind>)
        ensures
            kind == Self::spec_select(id, device_type),
            kind is Some <==> device_type.spec_is_supported(),
    {
        let model = device_type.model();
        match model.flash_block_size() {
            Some(block_size) => match id {
                DeviceId::Dfu(_) => Some(DriverKind::FirmwareUpgrade { model, block_size }),
                DeviceId::Serial(_) => Some(DriverKind::VersionGated { model }),
            },
            None => None,
        }
    }
}

} // verus!
