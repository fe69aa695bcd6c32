use serial_udp_forwarder::framing::{Framer, Received};
use serial_udp_forwarder::reader::{handle_chunk, handling};

const STREAM: &[u8] = b"one\r\n{\"fixType\":3}\r\n{relPosHeading}\r\n{\"fixType\":4}\r\nta\r";

#[test]
fn message_is_handled_as_asked() {
    for (show_last, log) in [(false, false), (false, true), (true, false), (true, true)] {
        let received = Received { raw: b"came".to_vec(), out: Some(b"goes".to_vec()) };
        let h = handling(received, b"\n", show_last, log);
        assert_eq!(h.shown, if show_last { Some(b"came".to_vec()) } else { None });
        assert_eq!(h.logged, if log { Some(b"came\n".to_vec()) } else { None });
        assert_eq!(h.queued, Some(b"goes".to_vec()));
    }
}

#[test]
fn dropped_message_is_shown_and_logged() {
    let received = Received { raw: b"fixType".to_vec(), out: None };
    let h = handling(received, b"", true, true);
    assert_eq!(h.shown, Some(b"fixType".to_vec()));
    assert_eq!(h.logged, Some(b"fixType".to_vec()));
    assert_eq!(h.queued, None);
}

#[test]
fn most_recent_message_is_shown() {
    let mut framer = Framer::new(b"\r\n".to_vec(), true);
    let mut last: Option<Vec<u8>> = None;
    for chunk in [&STREAM[..4], &STREAM[4..], b"il"] {
        for h in handle_chunk(&mut framer, chunk, true, false) {
            if let Some(msg) = h.shown {
                last = Some(msg);
            }
        }
    }
    assert_eq!(last, Some(b"{\"fixType\":4}".to_vec()));
}

#[test]
fn log_is_the_stream() {
    for hack in [false, true] {
        let mut framer = Framer::new(b"\r\n".to_vec(), hack);
        let mut log: Vec<u8> = Vec::new();
        for h in handle_chunk(&mut framer, STREAM, false, true) {
            assert_eq!(h.shown, None);
            log.extend(h.logged.unwrap());
        }
        log.extend(b"ta\r");
        assert_eq!(log, STREAM.to_vec());
    }
}

#[test]
fn queue_gets_what_goes_out() {
    let mut framer = Framer::new(b"\r\n".to_vec(), true);
    let queued: Vec<Vec<u8>> =
        handle_chunk(&mut framer, STREAM, true, true).into_iter().filter_map(|h| h.queued).collect();
    assert_eq!(
        queued,
        vec![b"one".to_vec(), b"{\"messageType\":25,relPosHeading}".to_vec()]
    );
    let mut plain = Framer::new(b"\r\n".to_vec(), true);
    assert_eq!(queued, plain.feed(STREAM));
}
