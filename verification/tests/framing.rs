use serial_udp_forwarder::framing::Framer;
use serial_udp_forwarder::rewrite::rewrite;

fn feed_all(delim: &[u8], hack: bool, chunks: &[&[u8]]) -> Vec<Vec<u8>> {
    let mut framer = Framer::new(delim.to_vec(), hack);
    let mut out = Vec::new();
    for chunk in chunks {
        out.extend(framer.feed(chunk));
    }
    out
}

#[test]
fn messages_are_cut_at_the_delimiter() {
    let got = feed_all(b"\n", false, &[b"one\ntwo\n\nthree"]);
    assert_eq!(got, vec![b"one".to_vec(), b"two".to_vec(), b"".to_vec()]);
}

#[test]
fn chunks_do_not_matter() {
    let stream = b"alpha\r\nbe\rta\r\n\r\ngamma\r\nrest";
    let whole = feed_all(b"\r\n", false, &[stream]);
    let mut singles: Vec<&[u8]> = Vec::new();
    for i in 0..stream.len() {
        singles.push(&stream[i..i + 1]);
    }
    assert_eq!(whole, feed_all(b"\r\n", false, &singles));
    assert_eq!(whole, feed_all(b"\r\n", false, &[&stream[..6], &stream[6..7], &stream[7..]]));
    assert_eq!(
        whole,
        vec![b"alpha".to_vec(), b"be\rta".to_vec(), b"".to_vec(), b"gamma".to_vec()]
    );
}

#[test]
fn earliest_delimiter_wins() {
    assert_eq!(feed_all(b"aa", false, &[b"xaaay"]), vec![b"x".to_vec()]);
    assert_eq!(feed_all(b"aa", false, &[b"xaaaay"]), vec![b"x".to_vec(), b"".to_vec()]);
    assert_eq!(feed_all(b"aab", false, &[b"aaab"]), vec![b"a".to_vec()]);
}

#[test]
fn empty_delimiter_makes_every_byte_a_message() {
    assert_eq!(feed_all(b"", false, &[b"abc"]), vec![b"a".to_vec(), b"b".to_vec(), b"c".to_vec()]);
}

#[test]
fn log_reconstructs_the_stream() {
    let stream = b"one\n{\"fixType\":3}\n\n{\"relPosHeading\":1}\ntail";
    for hack in [false, true] {
        let mut framer = Framer::new(b"\n".to_vec(), hack);
        let mut log: Vec<u8> = Vec::new();
        for received in framer.receive_chunk(stream) {
            log.extend(received.raw);
            log.extend(framer.delimiter());
        }
        log.extend(b"tail");
        assert_eq!(log, stream.to_vec());
    }
}

#[test]
fn messages_come_as_received_and_as_sent() {
    let mut framer = Framer::new(b"\n".to_vec(), true);
    let got = framer.receive_chunk(b"x\n{\"fixType\":3}\n{relPosHeading}\n");
    let raw: Vec<Vec<u8>> = got.iter().map(|r| r.raw.clone()).collect();
    let out: Vec<Option<Vec<u8>>> = got.into_iter().map(|r| r.out).collect();
    assert_eq!(
        raw,
        vec![b"x".to_vec(), b"{\"fixType\":3}".to_vec(), b"{relPosHeading}".to_vec()]
    );
    assert_eq!(
        out,
        vec![Some(b"x".to_vec()), None, Some(b"{\"messageType\":25,relPosHeading}".to_vec())]
    );
}

#[test]
fn one_received_byte_at_a_time() {
    let mut framer = Framer::new(b";".to_vec(), true);
    for b in b"fixType" {
        assert!(framer.receive(*b).is_none());
    }
    let received = framer.receive(b';').unwrap();
    assert_eq!(received.raw, b"fixType");
    assert_eq!(received.out, None);
}

#[test]
fn messages_are_read_back() {
    let msgs: Vec<Vec<u8>> = vec![b"{\"a\":1}".to_vec(), b"".to_vec(), vec![0, 255, 13]];
    let mut stream: Vec<u8> = Vec::new();
    for m in &msgs {
        stream.extend(m);
        stream.push(b'\n');
    }
    assert_eq!(feed_all(b"\n", false, &[&stream]), msgs);
}

#[test]
fn no_message_holds_the_delimiter() {
    for msg in feed_all(b"ab", false, &[b"aabbabaabab"]) {
        assert!(!msg.windows(2).any(|w| w == b"ab"));
    }
}

#[test]
fn one_byte_at_a_time() {
    let mut framer = Framer::new(b";".to_vec(), false);
    assert_eq!(framer.push_byte(b'h'), None);
    assert_eq!(framer.push_byte(b'i'), None);
    assert_eq!(framer.push_byte(b';'), Some(b"hi".to_vec()));
    assert_eq!(framer.push_byte(b';'), Some(b"".to_vec()));
    assert_eq!(framer.delimiter(), b";");
}

#[test]
fn rewriting_is_off_by_default() {
    assert_eq!(
        rewrite(b"{\"fixType\":3,\"relPosHeading\":1}".to_vec(), false),
        Some(b"{\"fixType\":3,\"relPosHeading\":1}".to_vec())
    );
}

#[test]
fn fix_type_is_dropped() {
    assert_eq!(rewrite(b"{\"fixType\":3}".to_vec(), true), None);
    assert_eq!(rewrite(b"{\"relPosHeading\":1,\"fixType\":3}".to_vec(), true), None);
    assert_eq!(rewrite(b"plain fixType text".to_vec(), true), None);
    let got = feed_all(b"\n", true, &[b"a\n{\"fixType\":3}\nb\n"]);
    assert_eq!(got, vec![b"a".to_vec(), b"b".to_vec()]);
}

#[test]
fn heading_gets_a_type_field() {
    assert_eq!(
        rewrite(b"{\"relPosHeading\":1}".to_vec(), true),
        Some(b"{\"messageType\":25,\"relPosHeading\":1}".to_vec())
    );
    assert_eq!(
        feed_all(b"\n", true, &[b"{\"relPosHeading\":1}\n"]),
        vec![b"{\"messageType\":25,\"relPosHeading\":1}".to_vec()]
    );
}

#[test]
fn other_messages_are_not_rewritten() {
    for msg in [
        &b"{\"heading\":1}"[..],
        b"relPosHeading without a brace",
        b" {\"relPosHeading\":1}",
        b"",
    ] {
        assert_eq!(rewrite(msg.to_vec(), true), Some(msg.to_vec()));
    }
}

#[test]
fn bytes_that_are_no_text_are_not_rewritten() {
    let mut dropped_if_text = b"fixType".to_vec();
    dropped_if_text.push(0xff);
    assert_eq!(rewrite(dropped_if_text.clone(), true), Some(dropped_if_text));
    let mut truncated = b"{relPosHeading".to_vec();
    truncated.push(0xc3);
    assert_eq!(rewrite(truncated.clone(), true), Some(truncated));
}

#[test]
fn rewritten_text_stays_text_and_keeps_the_rest() {
    let msg = "{\"relPosHeading\":\"\u{e9}\u{2026}\"}".as_bytes().to_vec();
    let out = rewrite(msg.clone(), true).unwrap();
    assert!(String::from_utf8(out.clone()).is_ok());
    let field = "\"messageType\":25,".len();
    let mut without = out[..1].to_vec();
    without.extend(&out[1 + field..]);
    assert_eq!(without, msg);
    assert!(!String::from_utf8(out).unwrap().contains("fixType"));
}
