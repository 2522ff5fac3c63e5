//! A device tree as plain values, and the hardware facts drawn from it.

use vstd::prelude::*;

verus! {

/// The value of a device-tree property, by the shape its bytes were read in.
#[derive(Clone, Debug)]
pub enum PropValue {
    Empty,
    String(String),
    StringList(Vec<String>),
    U32(u32),
    /// Big-endian 32-bit cells, as raw bytes.
    U32Array(Vec<u8>),
    U64(u64),
    /// Big-endian 64-bit cells, as raw bytes.
    U64Array(Vec<u8>),
    Bytes(Vec<u8>),
}

/// A named property of a device-tree node.
#[derive(Clone, Debug)]
pub struct DtProperty {
    pub name: String,
    pub value: PropValue,
}

/// A device-tree node with its properties and children.
#[derive(Debug)]
pub struct DtNode {
    pub name: String,
    pub properties: Vec<DtProperty>,
    pub children: Vec<DtNode>,
}

/// A register window of a device-tree node.
#[derive(Clone, Debug)]
pub struct MmioRegion {
    pub address: u64,
    pub size: u64,
    /// Path of the node that declares the window.
    pub peripheral: Option<String>,
    pub compatible: Vec<String>,
}

/// An interrupt line of a device-tree node.
#[derive(Clone, Debug)]
pub struct IrqMap {
    pub irq: u32,
    pub peripheral: String,
    pub flags: u32,
}

/// A clock feeding a peripheral.
#[derive(Clone, Debug)]
pub struct ClockMap {
    pub peripheral: String,
    pub rate_hz: Option<u64>,
}

/// A bank of GPIO lines.
#[derive(Clone, Copy, Debug)]
pub struct GpioMap {
    pub bank: u32,
    pub base: u64,
    pub count: u32,
}

/// An I2C controller.
#[derive(Clone, Copy, Debug)]
pub struct I2cBus {
    pub bus_id: u32,
    pub address: u64,
    pub clock: Option<u32>,
}

/// An SPI controller.
#[derive(Clone, Copy, Debug)]
pub struct SpiBus {
    pub bus_id: u32,
    pub address: u64,
    pub chip_select: u32,
}

/// A DMA controller.
#[derive(Clone, Debug)]
pub struct DmaController {
    pub address: u64,
    pub channels: u32,
    pub interrupts: Vec<u32>,
}

/// Everything drawn from a device tree.
#[derive(Clone, Debug)]
pub struct DtbInfo {
    /// Compatible strings of the root node.
    pub compatible: Vec<String>,
    /// Model string of the root node.
    pub model: Option<String>,
    pub mmio_regions: Vec<MmioRegion>,
    pub irqs: Vec<IrqMap>,
    pub clocks: Vec<ClockMap>,
    pub gpios: Vec<GpioMap>,
    pub i2c_buses: Vec<I2cBus>,
    pub spi_buses: Vec<SpiBus>,
    pub dma_controllers: Vec<DmaController>,
}

/// A device tree blob could not be parsed.
#[derive(Clone, Debug)]
pub struct DtbParseError {
    pub message: String,
}

} // verus!
