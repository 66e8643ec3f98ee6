use metrics_exporters::http_listener::{
    check_allowed, reply_for, IpAddress, IpNetwork, Reply, ResponseFormat,
};

fn v4(a: u8, b: u8, c: u8, d: u8) -> u32 {
    u32::from_be_bytes([a, b, c, d])
}

#[test]
fn everyone_may_scrape_without_an_allow_list() {
    assert!(check_allowed(None, Some(&IpAddress::V4(v4(8, 8, 8, 8)))));
    assert!(check_allowed(None, None));
}

#[test]
fn allow_list_holds_networks() {
    let nets = vec![IpNetwork::V4(v4(10, 0, 0, 0), 8), IpNetwork::V6(1u128 << 127, 1)];
    assert!(check_allowed(Some(&nets), Some(&IpAddress::V4(v4(10, 1, 2, 3)))));
    assert!(!check_allowed(Some(&nets), Some(&IpAddress::V4(v4(11, 0, 0, 1)))));
    assert!(check_allowed(Some(&nets), Some(&IpAddress::V6(u128::MAX))));
    assert!(!check_allowed(Some(&nets), Some(&IpAddress::V6(1))));
    // A client whose address cannot be read is refused.
    assert!(!check_allowed(Some(&nets), None));
    // An empty allow-list refuses everyone.
    assert!(!check_allowed(Some(&[]), Some(&IpAddress::V4(v4(10, 1, 2, 3)))));
}

#[test]
fn network_containment_by_prefix() {
    let host = IpNetwork::V4(v4(192, 168, 1, 7), 32);
    assert!(host.contains(&IpAddress::V4(v4(192, 168, 1, 7))));
    assert!(!host.contains(&IpAddress::V4(v4(192, 168, 1, 8))));
    let any = IpNetwork::V4(0, 0);
    assert!(any.contains(&IpAddress::V4(u32::MAX)));
    assert!(!any.contains(&IpAddress::V6(0)));
    let net = IpNetwork::V4(v4(192, 168, 0, 0), 16);
    assert!(net.contains(&IpAddress::V4(v4(192, 168, 255, 255))));
    assert!(!net.contains(&IpAddress::V4(v4(192, 169, 0, 0))));
}

#[test]
fn replies_to_requests() {
    assert!(matches!(reply_for(false, "/health", None), Reply::Forbidden));
    assert!(matches!(reply_for(false, "/metrics", None), Reply::Forbidden));
    assert!(matches!(reply_for(true, "/health", None), Reply::Health));
    assert!(matches!(reply_for(true, "/metrics", None), Reply::Metrics(ResponseFormat::Text)));
    assert!(matches!(
        reply_for(true, "/", Some("application/x-protobuf")),
        Reply::Metrics(ResponseFormat::Protobuf)
    ));
}
