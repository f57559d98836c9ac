use torrentina::tracker::address::{parse_ip, Ip};
use torrentina::tracker::http::{build_url, encode};
use torrentina::tracker::search::PeerSearch;
use torrentina::tracker::udp::{
    build_announce_request, build_connect_request, parse_announce_response,
    parse_connect_response, Exchange, Stage, Step, ACTION_ANNOUNCE, ACTION_CONNECT, ACTION_ERROR,
    PROTOCOL_ID,
};
use torrentina::tracker::{
    parse_compact_peers_v4, parse_compact_peers_v6, parse_http_response, transport, transport_for,
    unresolved, PeerAddr, Transport, UrlParts, COMPACT_PEER_V4_LEN,
};
use torrentina::{AnnounceParams, Error, Event, InfoHash, PeerId};

fn ipv4(a: u8, b: u8, c: u8, d: u8, port: u16) -> PeerAddr {
    PeerAddr::V4 { ip: u32::from_be_bytes([a, b, c, d]), port }
}

#[test]
fn parses_compact_v4_peers() {
    // 1.2.3.4:6881 and 10.0.0.1:6882
    let bytes = [1, 2, 3, 4, 0x1a, 0xe1, 10, 0, 0, 1, 0x1a, 0xe2];
    let peers = parse_compact_peers_v4(&bytes).unwrap();
    assert_eq!(peers, vec![ipv4(1, 2, 3, 4, 6881), ipv4(10, 0, 0, 1, 6882)]);
}

#[test]
fn rejects_misaligned_compact_peers() {
    let bytes = [1, 2, 3, 4, 5]; // 5 bytes, not a multiple of 6
    assert!(matches!(
        parse_compact_peers_v4(&bytes),
        Err(Error::InvalidPeersData(5, COMPACT_PEER_V4_LEN))
    ));
}

#[test]
fn parses_full_compact_http_response() {
    // d8:intervali1800e8:completei5e10:incompletei3e5:peers6:....e
    let mut body = Vec::new();
    body.extend_from_slice(b"d8:completei5e10:incompletei3e8:intervali1800e5:peers6:");
    body.extend_from_slice(&[1, 2, 3, 4, 0x1a, 0xe1]); // 1.2.3.4:6881
    body.extend_from_slice(b"e");

    let resp = parse_http_response(&body).unwrap();
    assert_eq!(resp.interval, 1800);
    assert_eq!(resp.seeders, Some(5));
    assert_eq!(resp.leechers, Some(3));
    assert_eq!(resp.peers, vec![ipv4(1, 2, 3, 4, 6881)]);
}

#[test]
fn parses_dictionary_model_peers() {
    // peers as a list of {ip, port} dicts
    let body = b"d8:intervali900e5:peersld2:ip9:127.0.0.14:porti6881eeee";
    let resp = parse_http_response(body).unwrap();
    assert_eq!(resp.interval, 900);
    assert_eq!(resp.peers, vec![ipv4(127, 0, 0, 1, 6881)]);
}

#[test]
fn surfaces_tracker_failure_reason() {
    let body = b"d14:failure reason17:torrent not founde";
    let err = parse_http_response(body).unwrap_err();
    assert!(matches!(err, Error::TrackerFailure(reason) if reason == "torrent not found"));
}

#[test]
fn odd_http_responses() {
    assert!(matches!(parse_http_response(b"nonsense"), Err(Error::BencodeDecode(_))));
    assert!(matches!(
        parse_http_response(b"le"),
        Err(Error::TrackerFailure(text)) if text == "response was not a bencode dictionary"
    ));
    let resp =
        parse_http_response(b"d8:completei-1e10:incompletei4294967297e8:intervali-7ee").unwrap();
    assert_eq!(resp.interval, 0);
    assert_eq!(resp.seeders, Some(0));
    assert_eq!(resp.leechers, Some(1));
    assert!(resp.peers.is_empty());
    let resp = parse_http_response(b"de").unwrap();
    assert_eq!((resp.seeders, resp.leechers), (None, None));
    assert!(matches!(
        parse_http_response(b"d5:peers5:abcdee"),
        Err(Error::InvalidPeersData(5, 6))
    ));
    assert!(matches!(
        parse_http_response(b"d6:peers61:xe"),
        Err(Error::InvalidPeersData(1, 18))
    ));
    // Entries that denote no peer are passed over, host names among them; a port keeps its low
    // 16 bits.
    let resp = parse_http_response(
        b"d5:peersli1ed2:ip7:1.2.3.4ed4:porti1eed2:ip1:b4:porti1eed2:ip8:1.2.3.4\xff4:porti1ee\
          d2:ip7:1.2.3.44:porti65537eed2:ip3:::54:porti-1eeee",
    )
    .unwrap();
    assert_eq!(resp.peers, vec![ipv4(1, 2, 3, 4, 1), PeerAddr::V6 { ip6: 5, port: 65535 }]);
    let err = parse_http_response(b"d14:failure reason2:a\xffe").unwrap_err();
    assert!(matches!(err, Error::TrackerFailure(reason) if reason == "a\u{fffd}"));
}

#[test]
fn parses_compact_v6_peers_behind_the_others() {
    let mut body = Vec::new();
    body.extend_from_slice(b"d5:peers6:");
    body.extend_from_slice(&[1, 2, 3, 4, 0x1a, 0xe1]);
    body.extend_from_slice(b"6:peers618:");
    let mut v6 = [0u8; 18];
    v6[0] = 0x20;
    v6[1] = 0x01;
    v6[15] = 0x05;
    v6[17] = 80;
    body.extend_from_slice(&v6);
    body.extend_from_slice(b"e");
    let resp = parse_http_response(&body).unwrap();
    let six = PeerAddr::V6 {
        ip6: 0x2001_0000_0000_0000_0000_0000_0000_0005,
        port: 80,
    };
    assert_eq!(parse_compact_peers_v6(&v6).unwrap(), vec![PeerAddr::V6 {
        ip6: 0x2001_0000_0000_0000_0000_0000_0000_0005,
        port: 80,
    }]);
    assert_eq!(resp.peers, vec![ipv4(1, 2, 3, 4, 6881), six]);
}

fn http_params() -> AnnounceParams {
    AnnounceParams {
        // Bytes chosen to include a value (0x00) that *must* be encoded and an alphanumeric one
        // ('A' = 0x41) that must *not* be.
        info_hash: InfoHash([
            0x00, 0x41, 0xff, 0x2d, 0x7e, 0, 0, 0, 0, 0, 0, 0, 0, 0, 0, 0, 0, 0, 0, 0,
        ]),
        peer_id: PeerId(*b"-TN0001-ABCDEFGHIJKL"),
        port: 6881,
        uploaded: 0,
        downloaded: 0,
        left: 1024,
        event: Event::Started,
        compact: true,
        numwant: Some(50),
    }
}

#[test]
fn encodes_binary_fields_per_tracker_convention() {
    // 0x00 -> %00 (encoded), 0x41 'A' -> A (unreserved), 0xff -> %FF,
    // 0x2d '-' -> - (unreserved), 0x7e '~' -> ~ (unreserved)
    assert_eq!(encode(&[0x00, 0x41, 0xff, 0x2d, 0x7e]), "%00A%FF-~");
}

#[test]
fn builds_query_and_chooses_separator() {
    let p = http_params();

    let url = build_url("http://tracker.example/announce", &p);
    assert!(url.starts_with("http://tracker.example/announce?info_hash="));
    assert!(url.contains("&peer_id=-TN0001-ABCDEFGHIJKL"));
    assert!(url.contains("&port=6881"));
    assert!(url.contains("&left=1024"));
    assert!(url.contains("&compact=1"));
    assert!(url.contains("&event=started"));
    assert!(url.contains("&numwant=50"));

    // A URL that already has a query must be extended with '&'.
    let url2 = build_url("http://tracker.example/announce?passkey=abc", &p);
    assert!(url2.contains("?passkey=abc&info_hash="));
}

#[test]
fn omits_event_param_when_none() {
    let mut p = http_params();
    p.event = Event::Routine;
    let url = build_url("http://t/announce", &p);
    assert!(!url.contains("event="));
}

#[test]
fn the_whole_url_is_as_expected() {
    let mut p = http_params();
    p.event = Event::Completed;
    p.compact = false;
    p.numwant = None;
    p.uploaded = 7;
    p.downloaded = u64::MAX;
    assert_eq!(
        build_url("http://t/a", &p),
        format!(
            "http://t/a?info_hash=%00A%FF-~{}&peer_id=-TN0001-ABCDEFGHIJKL&port=6881&uploaded=7\
&downloaded=18446744073709551615&left=1024&compact=0&event=completed",
            "%00".repeat(15)
        )
    );
    assert_eq!(Event::Stopped.as_http_str(), "stopped");
}

const RESERVED: &percent_encoding::AsciiSet =
    &percent_encoding::NON_ALPHANUMERIC.remove(b'-').remove(b'.').remove(b'_').remove(b'~');

#[test]
fn every_byte_is_encoded_as_the_percent_encoding_crate_does() {
    let all: Vec<u8> = (0..=255).collect();
    assert_eq!(encode(&all), percent_encoding::percent_encode(&all, RESERVED).to_string());
}

fn udp_params() -> AnnounceParams {
    AnnounceParams {
        info_hash: InfoHash([7u8; 20]),
        peer_id: PeerId([9u8; 20]),
        port: 6881,
        uploaded: 100,
        downloaded: 200,
        left: 300,
        event: Event::Started,
        compact: true,
        numwant: Some(80),
    }
}

#[test]
fn connect_request_has_magic_and_action() {
    let req = build_connect_request(0xdead_beef);
    assert_eq!(u64::from_be_bytes(req[0..8].try_into().unwrap()), PROTOCOL_ID);
    assert_eq!(u32::from_be_bytes(req[8..12].try_into().unwrap()), ACTION_CONNECT);
    assert_eq!(u32::from_be_bytes(req[12..16].try_into().unwrap()), 0xdead_beef);
}

fn connect_reply(txn: u32, id: u64) -> Vec<u8> {
    let mut reply = [0u8; 16];
    reply[0..4].copy_from_slice(&ACTION_CONNECT.to_be_bytes());
    reply[4..8].copy_from_slice(&txn.to_be_bytes());
    reply[8..16].copy_from_slice(&id.to_be_bytes());
    reply.to_vec()
}

#[test]
fn parses_connect_response_and_rejects_bad_txn() {
    let reply = connect_reply(0x1234, 0xCAFEBABE_DEADBEEF);

    assert_eq!(parse_connect_response(&reply, 0x1234).unwrap(), 0xCAFEBABE_DEADBEEF);
    assert!(matches!(parse_connect_response(&reply, 0x9999), Err(Error::UdpProtocol(_))));
}

#[test]
fn announce_request_layout_is_correct() {
    let p = udp_params();
    let req = build_announce_request(0xABCD, 0x1111, 0x2222, &p);
    assert_eq!(req.len(), 98);
    assert_eq!(u64::from_be_bytes(req[0..8].try_into().unwrap()), 0xABCD);
    assert_eq!(u32::from_be_bytes(req[8..12].try_into().unwrap()), ACTION_ANNOUNCE);
    assert_eq!(u32::from_be_bytes(req[12..16].try_into().unwrap()), 0x1111);
    assert_eq!(&req[16..36], p.info_hash.as_bytes());
    assert_eq!(&req[36..56], p.peer_id.as_bytes());
    assert_eq!(u64::from_be_bytes(req[56..64].try_into().unwrap()), 200); // downloaded
    assert_eq!(u64::from_be_bytes(req[64..72].try_into().unwrap()), 300); // left
    assert_eq!(u64::from_be_bytes(req[72..80].try_into().unwrap()), 100); // uploaded
    assert_eq!(u32::from_be_bytes(req[80..84].try_into().unwrap()), 2); // event=started
    assert_eq!(i32::from_be_bytes(req[92..96].try_into().unwrap()), 80); // num_want
    assert_eq!(u16::from_be_bytes(req[96..98].try_into().unwrap()), 6881); // port
    assert_eq!(u32::from_be_bytes(req[84..88].try_into().unwrap()), 0); // ip
    assert_eq!(u32::from_be_bytes(req[88..92].try_into().unwrap()), 0x2222); // key
}

#[test]
fn num_want_defaults_to_minus_one() {
    let mut p = udp_params();
    p.numwant = None;
    let req = build_announce_request(1, 2, 3, &p);
    assert_eq!(i32::from_be_bytes(req[92..96].try_into().unwrap()), -1);
}

fn announce_reply(txn: u32) -> Vec<u8> {
    let mut reply = Vec::new();
    reply.extend_from_slice(&ACTION_ANNOUNCE.to_be_bytes());
    reply.extend_from_slice(&txn.to_be_bytes()); // txn
    reply.extend_from_slice(&1800u32.to_be_bytes()); // interval
    reply.extend_from_slice(&3u32.to_be_bytes()); // leechers
    reply.extend_from_slice(&5u32.to_be_bytes()); // seeders
    reply.extend_from_slice(&[1, 2, 3, 4, 0x1a, 0xe1]); // 1.2.3.4:6881
    reply
}

#[test]
fn parses_announce_response_with_peers() {
    let reply = announce_reply(0x55);
    let resp = parse_announce_response(&reply, 0x55).unwrap();
    assert_eq!(resp.interval, 1800);
    assert_eq!(resp.seeders, Some(5));
    assert_eq!(resp.leechers, Some(3));
    assert_eq!(resp.peers, vec![ipv4(1, 2, 3, 4, 6881)]);
}

#[test]
fn surfaces_udp_error_action() {
    let mut reply = Vec::new();
    reply.extend_from_slice(&ACTION_ERROR.to_be_bytes());
    reply.extend_from_slice(&0x55u32.to_be_bytes());
    reply.extend_from_slice(b"bad request");

    let err = parse_announce_response(&reply, 0x55).unwrap_err();
    assert!(matches!(err, Error::TrackerFailure(m) if m == "bad request"));
}

fn udp_text<T: std::fmt::Debug>(result: Result<T, Error>) -> String {
    match result {
        Err(Error::UdpProtocol(text)) => text,
        other => panic!("{other:?}"),
    }
}

#[test]
fn bad_udp_replies_say_why() {
    assert_eq!(udp_text(parse_connect_response(&[0; 15], 0)), "connect response too short: 15 bytes");
    assert_eq!(
        udp_text(parse_connect_response(&connect_reply(1, 2), 9)),
        "connect transaction id mismatch"
    );
    let mut reply = connect_reply(1, 2);
    reply[3] = 2;
    assert_eq!(udp_text(parse_connect_response(&reply, 1)), "expected connect action, got 2");
    assert_eq!(udp_text(parse_announce_response(&[0; 7], 0)), "announce response too short: 7 bytes");
    assert_eq!(
        udp_text(parse_announce_response(&announce_reply(1), 2)),
        "announce transaction id mismatch"
    );
    let mut reply = announce_reply(1);
    reply[3] = 7;
    assert_eq!(udp_text(parse_announce_response(&reply, 1)), "expected announce action, got 7");
    assert_eq!(
        udp_text(parse_announce_response(&announce_reply(1)[..19], 1)),
        "announce response missing header fields"
    );
    assert!(matches!(
        parse_announce_response(&announce_reply(1)[..25], 1),
        Err(Error::InvalidPeersData(5, 6))
    ));
}

fn sent(step: Step) -> Vec<u8> {
    match step {
        Step::Send(packet) => packet,
        Step::Done(result) => panic!("{result:?}"),
    }
}

#[test]
fn an_exchange_connects_and_announces() {
    let (mut exchange, step) = Exchange::with_ids(udp_params(), 0x1234, 0x55, 0x77);
    assert_eq!(sent(step), build_connect_request(0x1234));
    let packet = sent(exchange.on_reply(&connect_reply(0x1234, 42)));
    assert_eq!(packet, build_announce_request(42, 0x55, 0x77, &udp_params()));
    assert_eq!(exchange.stage, Stage::Announcing { connection_id: 42 });
    match exchange.on_reply(&announce_reply(0x55)) {
        Step::Done(Ok(resp)) => assert_eq!(resp.peers, vec![ipv4(1, 2, 3, 4, 6881)]),
        other => panic!("{other:?}"),
    }
}

#[test]
fn an_exchange_gives_up_after_three_attempts() {
    let (mut exchange, first) = Exchange::start(udp_params());
    let first = sent(first);
    assert_eq!(sent(exchange.on_timeout()), first);
    // A stage has its own attempts.
    let txn = u32::from_be_bytes(first[12..16].try_into().unwrap());
    let announce = sent(exchange.on_reply(&connect_reply(txn, 1)));
    assert_eq!(sent(exchange.on_timeout()), announce);
    assert_eq!(sent(exchange.on_timeout()), announce);
    assert!(matches!(exchange.on_timeout(), Step::Done(Err(Error::Timeout))));
}

#[test]
fn a_wrong_connect_reply_ends_the_exchange() {
    let (mut exchange, _) = Exchange::with_ids(udp_params(), 1, 2, 3);
    assert!(matches!(
        exchange.on_reply(&connect_reply(9, 1)),
        Step::Done(Err(Error::UdpProtocol(_)))
    ));
}

#[test]
fn transports_by_url() {
    assert_eq!(transport("http://t/announce").unwrap(), Transport::Http);
    assert_eq!(transport("HTTPS://t:99/announce").unwrap(), Transport::Http);
    assert_eq!(
        transport("udp://tracker.example:1337/announce").unwrap(),
        Transport::Udp { host: "tracker.example".to_string(), port: 1337 }
    );
    assert_eq!(udp_text(transport("udp://tracker.example/announce")), "udp tracker URL has no port");
    assert_eq!(udp_text(transport("udp:announce")), "udp tracker URL has no host");
    assert!(matches!(transport("wss://t/"), Err(Error::UnsupportedScheme(s)) if s == "wss"));
    assert!(matches!(transport("no url"), Err(Error::UrlParse(_))));
    let parts = UrlParts { scheme: "udp".to_string(), host: Some("h".to_string()), port: Some(1) };
    assert_eq!(
        transport_for(parts).unwrap(),
        Transport::Udp { host: "h".to_string(), port: 1 }
    );
    assert!(
        matches!(unresolved("h", 80), Error::UdpProtocol(text) if text == "could not resolve h:80")
    );
}

#[test]
fn the_search_stops_at_the_first_tracker_with_peers() {
    let urls = vec!["a".to_string(), "b".to_string(), "c".to_string()];
    let mut search = PeerSearch::new(urls);
    assert_eq!(search.next_tracker().as_deref(), Some("a"));
    search.add_peers(&Vec::new());
    assert_eq!(search.next_tracker().as_deref(), Some("b"));
    let (x, y) = (ipv4(1, 1, 1, 1, 1), ipv4(1, 1, 1, 1, 2));
    search.add_peers(&vec![y, x, y, x]);
    assert_eq!(search.next_tracker(), None);
    assert_eq!(search.finish(), Some(vec![y, x]));

    let mut search = PeerSearch::new(vec!["a".to_string()]);
    assert!(search.next_tracker().is_some());
    assert_eq!(search.next_tracker(), None);
    assert_eq!(search.finish(), None);
}

#[test]
fn percent_encoding_can_be_undone() {
    let all: Vec<u8> = (0..=255).collect();
    let text = encode(&all);
    assert_eq!(percent_encoding::percent_decode_str(&text).collect::<Vec<u8>>(), all);
}

#[test]
fn ip_addresses_as_text() {
    let v4 = |a, b, c, d| Some(Ip::V4(u32::from_be_bytes([a, b, c, d])));
    assert_eq!(parse_ip("127.0.0.1"), v4(127, 0, 0, 1));
    assert_eq!(parse_ip("255.255.255.255"), v4(255, 255, 255, 255));
    assert_eq!(parse_ip("0.0.0.0"), v4(0, 0, 0, 0));
    assert_eq!(parse_ip("::"), Some(Ip::V6(0)));
    assert_eq!(parse_ip("::1"), Some(Ip::V6(1)));
    assert_eq!(parse_ip("1::"), Some(Ip::V6(1 << 112)));
    assert_eq!(parse_ip("2001:db8::FfFf"), Some(Ip::V6((0x2001_0db8 << 96) | 0xffff)));
    assert_eq!(
        parse_ip("1:2:3:4:5:6:7:8"),
        Some(Ip::V6(0x0001_0002_0003_0004_0005_0006_0007_0008))
    );
    assert_eq!(
        parse_ip("1:2:3:4:5:6:7::"),
        Some(Ip::V6(0x0001_0002_0003_0004_0005_0006_0007_0000))
    );
    assert_eq!(
        parse_ip("::2:3:4:5:6:7:8"),
        Some(Ip::V6(0x0002_0003_0004_0005_0006_0007_0008))
    );
    assert_eq!(parse_ip("::ffff:1.2.3.4"), Some(Ip::V6(0xffff_0102_0304)));
    assert_eq!(parse_ip("0:0:0:0:0:0:1.2.3.4"), Some(Ip::V6(0x0102_0304)));
    assert_eq!(parse_ip("::1:2:3:4:5:1.2.3.4"), Some(Ip::V6(0x0001_0002_0003_0004_0005_0102_0304)));
    for text in [
        "",
        "localhost",
        "1.2.3",
        "1.2.3.4.5",
        "1.2.3.",
        ".1.2.3",
        "1.2.3.256",
        "1.2.3.04",
        "1.2.3.0000",
        "1.2.3.4 ",
        "0x1.2.3.4",
        "+1.2.3.4",
        "1.2.3.4:80",
        "1.2.3.4::",
        ":",
        ":::",
        "1:::2",
        "1::2::3",
        "1:2:3:4:5:6:7",
        "1:2:3:4:5:6:7:8:9",
        "1:2:3:4:5:6:7:8::",
        "::1:2:3:4:5:6:7:8",
        "::1:2:3:4:5:6:1.2.3.4",
        ":1:2:3:4:5:6:7:8",
        "1:2:3:4:5:6:7:",
        "::12345",
        "::g",
        "::1.2.3.4:5",
        "[::1]",
        "::1%1",
    ] {
        assert_eq!(parse_ip(text), None, "{text}");
    }
}
