use peer_cache::config::{
    node_port, parse_port, ANNOUNCE_HOST, ANNOUNCE_INTERVAL_SECS, BIND_HOST, BROADCAST_HOST,
    DEFAULT_PORT, DISCOVERY_PORT, MAX_MESSAGE_BYTES, SNAPSHOT_INTERVAL_SECS,
};

#[test]
fn fixed_settings() {
    assert_eq!(DISCOVERY_PORT, 9000);
    assert_eq!(DEFAULT_PORT, 8080);
    assert_eq!(ANNOUNCE_INTERVAL_SECS, 10);
    assert_eq!(SNAPSHOT_INTERVAL_SECS, 10);
    assert_eq!(MAX_MESSAGE_BYTES, 1024);
    assert_eq!(ANNOUNCE_HOST, "127.0.0.1");
    assert_eq!(BROADCAST_HOST, "255.255.255.255");
    assert_eq!(BIND_HOST, "0.0.0.0");
}

#[test]
fn port_defaults_when_no_argument_is_given() {
    assert_eq!(node_port(None), Some(8080));
}

#[test]
fn port_is_taken_from_the_argument() {
    assert_eq!(node_port(Some("8081")), Some(8081));
    assert_eq!(node_port(Some("0")), Some(0));
    assert_eq!(node_port(Some("65535")), Some(65535));
    assert_eq!(node_port(Some("+9000")), Some(9000));
    assert_eq!(node_port(Some("0008080")), Some(8080));
}

#[test]
fn bad_port_arguments_are_refused() {
    for text in ["", "+", "-1", "65536", "99999999999999999999", "80a", " 80", "80 ", "8_0", "++1", "0x50"] {
        assert_eq!(node_port(Some(text)), None, "{:?}", text);
    }
}

#[test]
fn parse_port_agrees_with_std() {
    let samples = [
        "", "+", "-", "0", "00", "1", "+1", "-0", "+0", "65535", "65536", "065535", "100000",
        "4294967296", "18446744073709551616", "12a", "a12", "1 2", "١٢", "１２", "8080\n", "+-1",
    ];
    for text in samples {
        assert_eq!(parse_port(text), text.parse::<u16>().ok(), "{:?}", text);
    }
    let mut n: u32 = 0;
    while n < 70000 {
        let text = n.to_string();
        assert_eq!(parse_port(&text), text.parse::<u16>().ok());
        n += 7;
    }
}
