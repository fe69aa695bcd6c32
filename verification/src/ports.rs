//! Serial ports, and the list of them that the user is shown.
use vstd::prelude::*;

use crate::numbers::{hex4, push_hex4};

verus! {

/// What is known of a USB device.
#[derive(Clone, Debug)]
pub struct UsbPortInfo {
    pub vid: u16,
    pub pid: u16,
    pub serial_number: Option<String>,
    pub manufacturer: Option<String>,
    pub product: Option<String>,
}

/// How a port is attached.
#[derive(Clone, Debug)]
pub enum PortType {
    UsbPort(UsbPortInfo),
    PciPort,
    BluetoothPort,
    Unknown,
}

/// A serial port.
#[derive(Clone, Debug)]
pub struct PortInfo {
    pub port_name: String,
    pub port_type: PortType,
}

/// `label` and the text behind it, where there is one.
pub open spec fn labelled(label: Seq<char>, text: Option<String>) -> Seq<char> {
    match text {
        Some(t) => label + t@,
        None => seq![],
    }
}

/// What the list says of how a port is attached.
pub open spec fn attachment(t: PortType) -> Seq<char> {
    match t {
        PortType::UsbPort(usb) => " (USB vid: 0x"@ + hex4(usb.vid) + ", pid: 0x"@ + hex4(usb.pid)
            + labelled(", manufacturer: "@, usb.manufacturer) + labelled(", product: "@, usb.product)
            + labelled(", serial: "@, usb.serial_number) + ")"@,
        PortType::PciPort => " (PCI)"@,
        PortType::BluetoothPort => " (Bluetooth)"@,
        PortType::Unknown => " (Unknown type)"@,
    }
}

/// The list's line on one port.
pub open spec fn port_line(p: PortInfo) -> Seq<char> {
    p.port_name@ + attachment(p.port_type)
}

/// The list of `ports`, line by line.
pub open spec fn listing(ports: Seq<PortInfo>) -> Seq<Seq<char>> {
    if ports.len() == 0 {
        seq!["No serial ports detected."@]
    } else {
        seq!["Detected serial ports:"@] + ports.map_values(|p: PortInfo| port_line(p))
    }
}

/// The texts of `lines`.
pub open spec fn texts(lines: Seq<String>) -> Seq<Seq<char>> {
    lines.map_values(|s: String| s@)
}

/// Appends `label` and the text behind it, where there is one.
fn push_labelled(out: &mut String, label: &str, text: &Option<String>)
    ensures
        final(out)@ == old(out)@ + labelled(label@, *text),
{
    let ghost before = out@;
    if let Some(t) = text {
        out.append(label);
        out.append(t.as_str());
    }
    assert(out@ =~= before + labelled(label@, *text));
}

/// The list's line on one port.
pub fn describe_port(info: &PortInfo) -> (r: String)
    ensures
        r@ == port_line(*info),
{
    let mut out: String = info.port_name.clone();
    match &info.port_type {
        PortType::UsbPort(usb) => {
            out.append(" (USB vid: 0x");
            push_hex4(&mut out, usb.vid);
            out.append(", pid: 0x");
            push_hex4(&mut out, usb.pid);
            push_labelled(&mut out, ", manufacturer: ", &usb.manufacturer);
            push_labelled(&mut out, ", product: ", &usb.product);
            push_labelled(&mut out, ", serial: ", &usb.serial_number);
            out.append(")");
        },
        PortType::BluetoothPort => {
            out.append(" (Bluetooth)");
        },
        PortType::PciPort => {
            out.append(" (PCI)");
        },
        PortType::Unknown => {
            out.append(" (Unknown type)");
        },
    }
    assert(out@ =~= port_line(*info));
    out
}

/// The list of `ports`, line by line: one line on each, in their order, under
/// a heading, or a single line where there are none.
pub fn list_devices(ports: &Vec<PortInfo>) -> (r: Vec<String>)
    ensures
        texts(r@) == listing(ports@),
{
    let n: usize = ports.len();
    let mut lines: Vec<String> = Vec::new();
    if n == 0 {
        lines.push("No serial ports detected.".to_owned());
        assert(texts(lines@) =~= listing(ports@));
        return lines;
    }
    lines.push("Detected serial ports:".to_owned());
    let mut i: usize = 0;
    while i < n
        invariant
            n == ports@.len(),
            i <= n,
            lines@.len() == i + 1,
            lines@[0]@ == "Detected serial ports:"@,
            forall|k: int| 0 <= k < i ==> (#[trigger] lines@[k + 1])@ == port_line(ports@[k]),
        decreases n - i,
    {
        lines.push(describe_port(&ports[i]));
        i = i + 1;
    }
    assert forall|k: int| 0 <= k < lines@.len() implies texts(lines@)[k] == listing(ports@)[k] by {
        if k > 0 {
            assert(lines@[(k - 1) + 1]@ == port_line(ports@[k - 1]));
        }
    }
    assert(texts(lines@) =~= listing(ports@));
    lines
}

/// Every port has its line, in the order of the ports, under the heading; the
/// line begins with the port's name.
pub proof fn law_every_port_is_listed(ports: Seq<PortInfo>)
    ensures
        ports.len() == 0 ==> listing(ports) == seq!["No serial ports detected."@],
        ports.len() > 0 ==> {
            &&& listing(ports).len() == ports.len() + 1
            &&& listing(ports)[0] == "Detected serial ports:"@
            &&& forall|k: int|
                0 <= k < ports.len() ==> listing(ports)[k + 1] == (#[trigger] ports[k]).port_name@
                    + attachment(ports[k].port_type)
        },
{
}

/// The line on a USB device gives both identifiers and, in this order,
/// manufacturer, product and serial number, each where it is known and whatever
/// it is; the line on another port says of what kind it is.
pub proof fn law_lines_say_what_is_known(usb: UsbPortInfo)
    ensures
        ({
            let m = match usb.manufacturer {
                Some(t) => ", manufacturer: "@ + t@,
                None => Seq::<char>::empty(),
            };
            let p = match usb.product {
                Some(t) => ", product: "@ + t@,
                None => Seq::<char>::empty(),
            };
            let s = match usb.serial_number {
                Some(t) => ", serial: "@ + t@,
                None => Seq::<char>::empty(),
            };
            attachment(PortType::UsbPort(usb)) == " (USB vid: 0x"@ + hex4(usb.vid) + ", pid: 0x"@
                + hex4(usb.pid) + (m + p + s) + ")"@
        }),
        attachment(PortType::PciPort) == " (PCI)"@,
        attachment(PortType::BluetoothPort) == " (Bluetooth)"@,
        attachment(PortType::Unknown) == " (Unknown type)"@,
{
    let m = labelled(", manufacturer: "@, usb.manufacturer);
    let p = labelled(", product: "@, usb.product);
    let s = labelled(", serial: "@, usb.serial_number);
    assert(attachment(PortType::UsbPort(usb)) =~= " (USB vid: 0x"@ + hex4(usb.vid) + ", pid: 0x"@
        + hex4(usb.pid) + (m + p + s) + ")"@);
}

/// `texts` takes the text of each line, in their order.
pub proof fn law_texts_item_by_item(lines: Seq<String>)
    ensures
        texts(lines).len() == lines.len(),
        forall|i: int| 0 <= i < lines.len() ==> #[trigger] texts(lines)[i] == lines[i]@,
{
}

} // verus!
