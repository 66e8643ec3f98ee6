use base64::prelude::BASE64_STANDARD;
use base64::read::DecoderReader;
use metrics_exporters::push_gateway::basic_auth;
use std::io::Read;

const BASIC: &str = "Basic ";

fn decoded(header: &[u8]) -> Vec<u8> {
    assert!(header.starts_with(BASIC.as_bytes()));
    let reader = &header[BASIC.len()..];
    let mut decoder = DecoderReader::new(reader, &BASE64_STANDARD);
    let mut result = Vec::new();
    decoder.read_to_end(&mut result).unwrap();
    result
}

#[test]
fn builder_test_basic_auth() {
    // username only
    let username = "metrics";
    let header = basic_auth(username, None);
    assert_eq!(b"metrics:", &decoded(&header)[..]);

    // username/password
    let password = "123!_@ABC";
    let header = basic_auth(username, Some(password));
    assert_eq!(b"metrics:123!_@ABC", &decoded(&header)[..]);
}

#[test]
fn push_gateway_test_basic_auth() {
    let username = "metrics";
    let header = basic_auth(username, None);
    assert_eq!(b"metrics:", &decoded(&header)[..]);

    let password = "123!_@ABC";
    let header = basic_auth(username, Some(password));
    assert_eq!(b"metrics:123!_@ABC", &decoded(&header)[..]);
}

#[test]
fn basic_auth_exact_header() {
    // "user:pass" encodes to "dXNlcjpwYXNz".
    assert_eq!(basic_auth("user", Some("pass")), b"Basic dXNlcjpwYXNz".to_vec());
    // "a:" encodes with padding.
    assert_eq!(basic_auth("a", None), b"Basic YTo=".to_vec());
}
