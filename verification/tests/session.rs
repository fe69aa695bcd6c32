use serial_udp_forwarder::args::RunArgs;
use serial_udp_forwarder::ring::Ring;
use serial_udp_forwarder::session::{remote_addr, Session};
use serial_udp_forwarder::stats::{preview, StatsPrinter};
use serial_udp_forwarder::writer::{after_send, SendEffect, SendOutcome};

fn drain(ring: &mut Ring) -> Vec<Vec<u8>> {
    let mut out = Vec::new();
    while let Some(m) = ring.pop() {
        out.push(m);
    }
    out
}

#[test]
fn first_in_first_out() {
    let mut ring = Ring::new(3);
    assert_eq!(ring.pop(), None);
    ring.push(vec![1]);
    ring.push(vec![2]);
    assert_eq!(ring.pop(), Some(vec![1]));
    ring.push(vec![3]);
    assert_eq!(drain(&mut ring), vec![vec![2], vec![3]]);
    assert_eq!(ring.pop(), None);
}

#[test]
fn oldest_are_dropped() {
    let mut ring = Ring::new(3);
    for i in 0..10u8 {
        ring.push(vec![i]);
    }
    assert_eq!(drain(&mut ring), vec![vec![7], vec![8], vec![9]]);
}

#[test]
fn nothing_lost_within_capacity() {
    let mut ring = Ring::new(4);
    let msgs: Vec<Vec<u8>> = vec![vec![1], vec![], vec![2, 3], vec![1]];
    for m in &msgs {
        ring.push(m.clone());
    }
    assert_eq!(drain(&mut ring), msgs);
}

#[test]
fn ring_of_no_capacity_stays_empty() {
    let mut ring = Ring::new(0);
    ring.push(vec![1]);
    assert_eq!(ring.pop(), None);
    ring.push(vec![2]);
    ring.push(vec![3]);
    assert_eq!(drain(&mut ring), Vec::<Vec<u8>>::new());
}

#[test]
fn ring_of_one_holds_the_newest() {
    let mut ring = Ring::new(1);
    ring.push(vec![1]);
    ring.push(vec![2]);
    assert_eq!(drain(&mut ring), vec![vec![2]]);
}

#[test]
fn effects_of_sending() {
    assert_eq!(after_send(SendOutcome::Sent), SendEffect::Count);
    assert_eq!(after_send(SendOutcome::ConnectionRefused), SendEffect::Ignore);
    assert_eq!(after_send(SendOutcome::Failed), SendEffect::Report);
}

#[test]
fn statistics() {
    let mut stats = StatsPrinter::new(5);
    assert_eq!(stats.tick(0, None), "Forwarded 0 messages in the last 5s (total: 0)");
    assert_eq!(stats.tick(12, None), "Forwarded 12 messages in the last 5s (total: 12)");
    assert_eq!(
        stats.tick(112, Some(&b"hello\r\n".to_vec())),
        "Forwarded 100 messages in the last 5s (total: 112) | last: hello"
    );
    assert_eq!(stats.tick(112, None), "Forwarded 0 messages in the last 5s (total: 112)");
}

#[test]
fn text_preview() {
    assert_eq!(preview(b""), "");
    assert_eq!(preview(b"a\nb\r\n\0"), "a\nb");
    assert_eq!(preview(b"\r\n"), "");
    assert_eq!(preview(b"tail "), "tail ");
    assert_eq!(preview("\u{e9}\u{7f}\u{9f}\u{80}".as_bytes()), "\u{e9}");
    assert_eq!(preview("x\u{a0}".as_bytes()), "x\u{a0}");
}

#[test]
fn hex_preview() {
    assert_eq!(preview(&[0xff]), "ff");
    assert_eq!(preview(&[0x00, 0xff, 0x1a]), "00 ff 1a");
    let just = vec![0xfeu8; 32];
    assert_eq!(preview(&just), ["fe"; 32].join(" "));
    let long = vec![0xfeu8; 33];
    let shown = preview(&long);
    assert_eq!(shown, format!("{} \u{2026}", ["fe"; 32].join(" ")));
    assert_eq!(shown.chars().count(), 97);
}

#[test]
fn destination() {
    assert_eq!(remote_addr("127.0.0.1", 5000), "127.0.0.1:5000");
    assert_eq!(remote_addr("", 0), ":0");
    assert_eq!(remote_addr("host", 65535), "host:65535");
}

#[test]
fn session_follows_its_arguments() {
    let args = RunArgs {
        port: None,
        vid: None,
        pid: None,
        manufacturer: None,
        product: None,
        serial: None,
        baud: 115_200,
        terminator: "\\r\\n".to_string(),
        udp_ip: "10.0.0.7".to_string(),
        udp_port: 9000,
        buffer: 2,
        stats_interval: 3,
        show_last: true,
        log: None,
        hack: true,
    };
    let mut s = Session::new(&args, "/dev/ttyUSB7");
    assert_eq!(s.serial, tokio_serial::new("/dev/ttyUSB7", 115_200));
    assert_ne!(s.serial, tokio_serial::new("/dev/ttyUSB7", 9_600));
    assert_ne!(s.serial, tokio_serial::new("/dev/ttyUSB8", 115_200));
    assert_eq!(s.remote_addr, "10.0.0.7:9000");
    assert_eq!(s.stats.interval_secs, 3);
    for msg in s.framer.feed(b"one\r\nx fixType\r\ntwo\r\n{relPosHeading}\r\nrest") {
        s.ring.push(msg);
    }
    assert_eq!(
        drain(&mut s.ring),
        vec![b"two".to_vec(), b"{\"messageType\":25,relPosHeading}".to_vec()]
    );
}

#[test]
fn messages_arrive() {
    let msgs: Vec<Vec<u8>> = vec![b"a".to_vec(), b"".to_vec(), b"bc".to_vec()];
    let mut framer = serial_udp_forwarder::framing::Framer::new(b"\n".to_vec(), false);
    let mut ring = Ring::new(3);
    for m in framer.feed(b"a\n\nbc\n") {
        ring.push(m);
    }
    assert_eq!(drain(&mut ring), msgs);
}
