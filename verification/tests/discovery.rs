use rust_file::debug_safety::reports_tracer;
use rust_file::discovery::{
    discovery_query, discovery_reply, discovery_response, parse_discovery_response,
    DiscoveryError,
};

#[test]
fn query_and_response_bytes() {
    assert_eq!(discovery_query("backup.bin"), b"backup.bin?".to_vec());
    assert_eq!(
        discovery_response("backup.bin", "192.168.1.20:9000"),
        b"backup.bin|192.168.1.20:9000".to_vec()
    );
}

#[test]
fn reply_only_to_own_query() {
    assert_eq!(
        discovery_reply("backup.bin", "1.2.3.4:9000", b"backup.bin?"),
        Some(b"backup.bin|1.2.3.4:9000".to_vec())
    );
    assert_eq!(discovery_reply("backup.bin", "1.2.3.4:9000", b"backup.bin"), None);
    assert_eq!(discovery_reply("backup.bin", "1.2.3.4:9000", b"other.bin?"), None);
}

#[test]
fn parse_response() {
    assert_eq!(
        parse_discovery_response("backup.bin", b"backup.bin|1.2.3.4:9000"),
        Ok("1.2.3.4:9000".to_string())
    );
    assert_eq!(
        parse_discovery_response("b", b"b|x|y"),
        Ok("x|y".to_string())
    );
    assert_eq!(
        parse_discovery_response("backup.bin", b"other.bin|1.2.3.4:9000"),
        Err(DiscoveryError::WrongFile)
    );
    assert_eq!(
        parse_discovery_response("backup.bin", b"backup.bin 1.2.3.4"),
        Err(DiscoveryError::InvalidResponse)
    );
    assert_eq!(
        parse_discovery_response("backup.bin", b"backup.bin|\xff"),
        Err(DiscoveryError::InvalidResponse)
    );
}

#[test]
fn response_reads_back() {
    let response = discovery_response("ünï.bin", "[::1]:9000");
    assert_eq!(
        parse_discovery_response("ünï.bin", &response),
        Ok("[::1]:9000".to_string())
    );
}

#[test]
fn tracer_status() {
    assert!(!reports_tracer("Name:\tcat\nTracerPid:\t0\nUid:\t0\n"));
    assert!(reports_tracer("Name:\tcat\nTracerPid:\t4242\n"));
    assert!(!reports_tracer("Name:\tcat\n"));
    assert!(!reports_tracer(""));
    assert!(!reports_tracer("TracerPid:\u{a0}0\u{3000}\r\n"));
    assert!(reports_tracer("TracerPid:\n"));
    assert!(!reports_tracer("TracerPid: 0\nTracerPid: 9\n"));
    assert!(!reports_tracer(" TracerPid: 9\n"));
}
