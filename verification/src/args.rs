//! What the user asks for.
use vstd::prelude::*;

verus! {

/// The arguments of a run.
#[derive(Debug)]
pub struct RunArgs {
    /// Path or name of the serial port. Without it a device is selected by the
    /// criteria below.
    pub port: Option<String>,
    /// USB vendor ID, in decimal or hexadecimal.
    pub vid: Option<String>,
    /// USB product ID, in decimal or hexadecimal.
    pub pid: Option<String>,
    /// Part of the manufacturer's name, in any case of letters (USB only).
    pub manufacturer: Option<String>,
    /// Part of the product's name, in any case of letters (USB only).
    pub product: Option<String>,
    /// Part of the serial number, in any case of letters (USB only).
    pub serial: Option<String>,
    /// Baud rate of the serial port.
    pub baud: u32,
    /// Delimiter that ends a message, with escapes.
    pub terminator: String,
    /// Address to which datagrams go.
    pub udp_ip: String,
    /// Port to which datagrams go.
    pub udp_port: u16,
    /// How many messages may wait to be sent at most.
    pub buffer: usize,
    /// Seconds between two lines of statistics.
    pub stats_interval: u64,
    /// Whether the statistics show the last message that was read.
    pub show_last: bool,
    /// File to which every message is appended as it came.
    pub log: Option<String>,
    /// Whether JSON messages are rewritten.
    pub hack: bool,
}

} // verus!
