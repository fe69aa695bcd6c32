use serial_udp_forwarder::args::RunArgs;
use serial_udp_forwarder::ports::{describe_port, list_devices, PortInfo, PortType, UsbPortInfo};
use serial_udp_forwarder::select::{needs_enumeration, select_port, unify_name, SelectError};

fn args() -> RunArgs {
    RunArgs {
        port: None,
        vid: None,
        pid: None,
        manufacturer: None,
        product: None,
        serial: None,
        baud: 9600,
        terminator: "\n".to_string(),
        udp_ip: "127.0.0.1".to_string(),
        udp_port: 5000,
        buffer: 100,
        stats_interval: 1,
        show_last: false,
        log: None,
        hack: false,
    }
}

fn some(s: &str) -> Option<String> {
    Some(s.to_string())
}

fn usb(name: &str, vid: u16, pid: u16, manufacturer: &str, product: &str, sn: &str) -> PortInfo {
    PortInfo {
        port_name: name.to_string(),
        port_type: PortType::UsbPort(UsbPortInfo {
            vid,
            pid,
            serial_number: some(sn),
            manufacturer: some(manufacturer),
            product: some(product),
        }),
    }
}

fn other(name: &str, port_type: PortType) -> PortInfo {
    PortInfo { port_name: name.to_string(), port_type }
}

fn bench() -> Vec<PortInfo> {
    vec![
        other("/dev/ttyS0", PortType::PciPort),
        usb("/dev/ttyUSB0", 0x0403, 0x6001, "FTDI", "FT232R USB UART", "A50285BI"),
        usb("/dev/ttyUSB1", 0x0403, 0x6015, "FTDI", "FT231X", "D30A1B2C"),
        usb("/dev/ttyACM0", 0x1546, 0x01a9, "u-blox AG", "GNSS Receiver", "0001"),
        other("/dev/rfcomm0", PortType::BluetoothPort),
    ]
}

fn chosen(a: &RunArgs, ports: &Vec<PortInfo>) -> Result<String, String> {
    select_port(a, ports).map_err(|e| e.message())
}

#[test]
fn named_port_is_taken() {
    let mut a = args();
    assert!(needs_enumeration(&a));
    a.port = some("COM3");
    a.vid = some("1");
    assert!(!needs_enumeration(&a));
    assert_eq!(chosen(&a, &Vec::new()), Ok("COM3".to_string()));
    assert_eq!(chosen(&a, &bench()), Ok("COM3".to_string()));
}

#[test]
fn no_ports_at_all() {
    assert!(matches!(select_port(&args(), &Vec::new()), Err(SelectError::NoPorts)));
    assert_eq!(chosen(&args(), &Vec::new()), Err("no serial ports detected".to_string()));
}

#[test]
fn nothing_matches() {
    let mut a = args();
    a.vid = some("0x9999");
    assert!(matches!(select_port(&a, &bench()), Err(SelectError::NoMatch)));
    assert_eq!(
        chosen(&a, &bench()),
        Err("no serial port matched the given selectors".to_string())
    );
}

#[test]
fn several_devices_are_ambiguous() {
    let mut a = args();
    a.vid = some("0403");
    assert!(matches!(select_port(&a, &bench()), Err(SelectError::NoMatch)));
    a.vid = some("0x0403");
    match select_port(&a, &bench()) {
        Err(SelectError::Ambiguous(names)) => {
            assert_eq!(names, vec!["/dev/ttyUSB0".to_string(), "/dev/ttyUSB1".to_string()])
        }
        r => panic!("{:?}", r),
    }
    assert_eq!(
        chosen(&a, &bench()),
        Err("multiple serial ports match the given selectors: /dev/ttyUSB0, /dev/ttyUSB1"
            .to_string())
    );
    assert_eq!(
        chosen(&args(), &bench()),
        Err("multiple serial ports match the given selectors: /dev/ttyS0, /dev/ttyUSB0, \
             /dev/ttyUSB1, /dev/ttyACM0, /dev/rfcomm0"
            .to_string())
    );
}

#[test]
fn identifiers_select() {
    let mut a = args();
    a.vid = some("5446");
    assert_eq!(chosen(&a, &bench()), Ok("/dev/ttyACM0".to_string()));
    a.vid = some("0x0403");
    a.pid = some("0x6015");
    assert_eq!(chosen(&a, &bench()), Ok("/dev/ttyUSB1".to_string()));
    a.vid = None;
    a.pid = some("0x6001");
    assert_eq!(chosen(&a, &bench()), Ok("/dev/ttyUSB0".to_string()));
    a.vid = some("5446");
    assert!(matches!(select_port(&a, &bench()), Err(SelectError::NoMatch)));
}

#[test]
fn identifier_that_is_no_number_asks_for_nothing() {
    let mut a = args();
    a.vid = some("ftdi!");
    let ports = vec![other("/dev/ttyS0", PortType::Unknown)];
    assert_eq!(chosen(&a, &ports), Ok("/dev/ttyS0".to_string()));
}

#[test]
fn letter_case_does_not_matter() {
    for text in ["gnss", "GNSS", "Gnss rec"] {
        let mut a = args();
        a.product = some(text);
        assert_eq!(chosen(&a, &bench()), Ok("/dev/ttyACM0".to_string()));
    }
    let ports = vec![
        usb("a", 1, 1, "\u{c4}RGER", "x", "1"),
        usb("b", 1, 1, "ARGER", "x", "2"),
    ];
    let mut a = args();
    a.manufacturer = some("\u{e4}rg");
    assert_eq!(chosen(&a, &ports), Ok("a".to_string()));
}

#[test]
fn serial_number_and_manufacturer_select() {
    let mut a = args();
    a.serial = some("d30a");
    assert_eq!(chosen(&a, &bench()), Ok("/dev/ttyUSB1".to_string()));
    a.manufacturer = some("ublox");
    assert!(matches!(select_port(&a, &bench()), Err(SelectError::NoMatch)));
    a.manufacturer = some("ftd");
    assert_eq!(chosen(&a, &bench()), Ok("/dev/ttyUSB1".to_string()));
}

#[test]
fn empty_text_matches_any_device_that_has_one() {
    let mut a = args();
    a.serial = some("");
    let ports = vec![
        other("/dev/ttyS0", PortType::PciPort),
        PortInfo {
            port_name: "x".to_string(),
            port_type: PortType::UsbPort(UsbPortInfo {
                vid: 1,
                pid: 2,
                serial_number: None,
                manufacturer: None,
                product: None,
            }),
        },
        usb("y", 1, 2, "m", "p", "s"),
    ];
    assert_eq!(chosen(&a, &ports), Ok("y".to_string()));
}

#[test]
fn twin_names_are_one_device() {
    assert_eq!(unify_name("/dev/cu.usb1"), "usb1");
    assert_eq!(unify_name("/dev/tty.usb1"), "usb1");
    assert_eq!(unify_name("/dev/ttyUSB0"), "/dev/ttyUSB0");
    assert_eq!(unify_name("/dev/cu."), "");
    let cu = usb("/dev/cu.usb1", 1, 2, "m", "p", "s");
    let tty = usb("/dev/tty.usb1", 1, 2, "m", "p", "s");
    let second = usb("/dev/cu.usb2", 1, 2, "m", "p", "s");
    let mut a = args();
    a.vid = some("1");
    assert_eq!(chosen(&a, &vec![cu.clone(), tty.clone()]), Ok("/dev/cu.usb1".to_string()));
    assert_eq!(chosen(&a, &vec![tty.clone(), cu.clone()]), Ok("/dev/tty.usb1".to_string()));
    assert_eq!(
        chosen(&a, &vec![cu, tty, second]),
        Err("multiple serial ports match the given selectors: /dev/cu.usb1, /dev/tty.usb1, \
             /dev/cu.usb2"
            .to_string())
    );
}

#[test]
fn list_of_no_devices() {
    assert_eq!(list_devices(&Vec::new()), vec!["No serial ports detected.".to_string()]);
}

#[test]
fn list_of_devices() {
    let mut ports = bench();
    ports.push(other("COM9", PortType::Unknown));
    assert_eq!(
        list_devices(&ports),
        vec![
            "Detected serial ports:".to_string(),
            "/dev/ttyS0 (PCI)".to_string(),
            "/dev/ttyUSB0 (USB vid: 0x0403, pid: 0x6001, manufacturer: FTDI, product: FT232R USB \
             UART, serial: A50285BI)"
                .to_string(),
            "/dev/ttyUSB1 (USB vid: 0x0403, pid: 0x6015, manufacturer: FTDI, product: FT231X, \
             serial: D30A1B2C)"
                .to_string(),
            "/dev/ttyACM0 (USB vid: 0x1546, pid: 0x01a9, manufacturer: u-blox AG, product: GNSS \
             Receiver, serial: 0001)"
                .to_string(),
            "/dev/rfcomm0 (Bluetooth)".to_string(),
            "COM9 (Unknown type)".to_string(),
        ]
    );
}

#[test]
fn line_without_names() {
    let p = PortInfo {
        port_name: "p".to_string(),
        port_type: PortType::UsbPort(UsbPortInfo {
            vid: 0xf,
            pid: 0xabcd,
            serial_number: None,
            manufacturer: None,
            product: None,
        }),
    };
    assert_eq!(describe_port(&p), "p (USB vid: 0x000f, pid: 0xabcd)");
}
