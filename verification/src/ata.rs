//! ATA command-level constants and register blocks used when requesting
//! SMART data. Issuing the commands is transport work and stays with the
//! caller; these types only carry the values bit-exactly.

use vstd::prelude::*;

verus! {

/// ATA command opcodes used by the SMART pipeline.
#[derive(Debug, Clone, Copy, PartialEq, Eq, Structural)]
pub enum Command {
    Identify,
    SMART,
}

impl Command {
    /// Opcode byte of the command.
    pub open spec fn spec_code(self) -> u8 {
        match self {
            Command::Identify => 0xec,
            Command::SMART => 0xb0,
        }
    }

    /// Opcode byte of the command.
    pub fn code(self) -> (r: u8)
        ensures
            r == self.spec_code(),
    {
        match self {
            Command::Identify => 0xec,
            Command::SMART => 0xb0,
        }
    }
}

/// Feature codes of the SMART command set.
#[derive(Debug, Clone, Copy, PartialEq, Eq, Structural)]
pub enum SMARTFeature {
    ReadValues,
    ReadThresholds,
    ReturnStatus,
}

impl SMARTFeature {
    /// Feature byte of the subcommand.
    pub open spec fn spec_code(self) -> u8 {
        match self {
            SMARTFeature::ReadValues => 0xd0,
            SMARTFeature::ReadThresholds => 0xd1,
            SMARTFeature::ReturnStatus => 0xda,
        }
    }

    /// Feature byte of the subcommand.
    pub fn code(self) -> (r: u8)
        ensures
            r == self.spec_code(),
    {
        match self {
            SMARTFeature::ReadValues => 0xd0,
            SMARTFeature::ReadThresholds => 0xd1,
            SMARTFeature::ReturnStatus => 0xda,
        }
    }
}

/// Task-file registers as read back from the device; the data port is
/// carried separately.
#[derive(Debug, Clone, Copy, PartialEq, Eq, Structural)]
pub struct RegistersRead {
    pub error: u8,
    pub sector_count: u8,
    /// LBA, least significant bits.
    pub sector: u8,
    /// LBA.
    pub cyl_low: u8,
    /// LBA.
    pub cyl_high: u8,
    /// LBA, most significant bits; also called drive/head select.
    pub device: u8,
    pub status: u8,
}

/// Task-file registers as written to the device.
#[derive(Debug, Clone, Copy, PartialEq, Eq, Structural)]
pub struct RegistersWrite {
    pub features: u8,
    pub sector_count: u8,
    pub sector: u8,
    pub cyl_low: u8,
    pub cyl_high: u8,
    pub device: u8,
    pub command: u8,
}

} // verus!
