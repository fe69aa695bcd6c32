//! The settings with which a serial port is opened.
use tokio_serial::SerialPortBuilder;
use vstd::prelude::*;

verus! {

/// The settings of a serial port, which the serial library reads when it opens
/// the port.
#[verifier::external_type_specification]
#[verifier::external_body]
pub struct ExSerialPortBuilder(tokio_serial::SerialPortBuilder);

/// The serial library's settings for a port of this path and baud rate, all
/// else as the library presets it.
pub uninterp spec fn serial_settings(path: Seq<char>, baud: u32) -> SerialPortBuilder;

/// The settings for a port, through `tokio_serial::new`: they are determined by
/// the path and the baud rate. What the presets are is not stated.
#[verifier::external_body]
pub(crate) fn serial_builder(path: &str, baud: u32) -> (r: SerialPortBuilder)
    ensures
        r == serial_settings(path@, baud),
{
    tokio_serial::new(path, baud)
}

} // verus!
