use httpfetch::dns::{DnsFailure, DnsOutcome, Ipv4, Query};

fn synthetic_response(tid_hi: u8, tid_lo: u8, hostname_len: usize, type_bytes: [u8; 2], addr: [u8; 4]) -> Vec<u8> {
    let mut buf = vec![0u8; hostname_len + 34];
    buf[0] = tid_hi;
    buf[1] = tid_lo;
    buf[hostname_len + 20] = type_bytes[0];
    buf[hostname_len + 21] = type_bytes[1];
    buf[hostname_len + 30] = addr[0];
    buf[hostname_len + 31] = addr[1];
    buf[hostname_len + 32] = addr[2];
    buf[hostname_len + 33] = addr[3];
    buf
}

#[test]
fn query_message_starts_with_its_transaction_id() {
    let (msg, tid) = Query::build_query("example.com");
    assert!(msg.len() >= 2);
    assert_eq!(((msg[0] as u16) << 8) | (msg[1] as u16), tid);
}

#[test]
fn encoded_query_layout_is_exact() {
    let msg = Query::encode_query("example.com", 0x1234);
    let mut expected: Vec<u8> = vec![0x12, 0x34, 0x01, 0x00, 0x00, 0x01, 0x00, 0x00, 0x00, 0x00, 0x00, 0x00];
    expected.push(7);
    expected.extend_from_slice(b"example");
    expected.push(3);
    expected.extend_from_slice(b"com");
    expected.push(0);
    expected.extend_from_slice(&[0x00, 0x01, 0x00, 0x01]);
    assert_eq!(msg, expected);
}

#[test]
fn encoded_query_handles_empty_and_trailing_labels() {
    let msg = Query::encode_query("", 0);
    assert_eq!(&msg[12..], &[0, 0, 0x00, 0x01, 0x00, 0x01]);
    let msg = Query::encode_query("a.", 0);
    assert_eq!(&msg[12..], &[1, b'a', 0, 0, 0x00, 0x01, 0x00, 0x01]);
}

#[test]
fn matching_id_and_a_record_resolve_to_injected_address() {
    let buf = synthetic_response(0xAB, 0xCD, 11, [0x00, 0x01], [93, 184, 216, 34]);
    let out = Query::parse_response(&buf, 0xABCD, 11);
    assert_eq!(
        out,
        DnsOutcome::ResolvedAddress(Ipv4 { a: 93, b: 184, c: 216, d: 34 })
    );
}

#[test]
fn round_trip_of_an_encoded_query_length() {
    // The synthetic response reuses the hostname length of a real query.
    let hostname = "example.com";
    let (_msg, tid) = Query::build_query(hostname);
    let buf = synthetic_response((tid >> 8) as u8, (tid & 0xFF) as u8, hostname.len(), [0x00, 0x01], [1, 2, 3, 4]);
    let out = Query::parse_response(&buf, tid, hostname.len());
    assert_eq!(out, DnsOutcome::ResolvedAddress(Ipv4 { a: 1, b: 2, c: 3, d: 4 }));
}

#[test]
fn mismatched_id_fails_regardless_of_payload() {
    let buf = synthetic_response(0xAB, 0xCD, 11, [0x00, 0x01], [93, 184, 216, 34]);
    let out = Query::parse_response(&buf, 0x1234, 11);
    assert_eq!(out, DnsOutcome::Failure(DnsFailure::TransactionIdMismatch));
}

#[test]
fn short_response_is_truncated_not_read_out_of_bounds() {
    let buf = vec![0xABu8, 0xCD];
    let out = Query::parse_response(&buf, 0xABCD, 11);
    assert_eq!(out, DnsOutcome::Failure(DnsFailure::TruncatedResponse));
    let out = Query::parse_response(&Vec::new(), 0xABCD, 0);
    assert_eq!(out, DnsOutcome::Failure(DnsFailure::TruncatedResponse));
    // One byte below the fixed layout's need.
    let buf = vec![0u8; 11 + 33];
    let out = Query::parse_response(&buf, 0, 11);
    assert_eq!(out, DnsOutcome::Failure(DnsFailure::TruncatedResponse));
}

#[test]
fn non_a_answer_is_rejected() {
    let buf = synthetic_response(0xAB, 0xCD, 11, [0x00, 0x10], [93, 184, 216, 34]);
    let out = Query::parse_response(&buf, 0xABCD, 11);
    assert_eq!(out, DnsOutcome::Failure(DnsFailure::NotARecord));
}

#[test]
fn label_fitting_matches_the_length_limit() {
    assert!(httpfetch::dns::labels_fit("example.com"));
    assert!(httpfetch::dns::labels_fit(""));
    let long = "a".repeat(63);
    assert!(httpfetch::dns::labels_fit(&format!("{}.com", long)));
    let too_long = "a".repeat(64);
    assert!(!httpfetch::dns::labels_fit(&too_long));
    assert!(!httpfetch::dns::labels_fit(&format!("ok.{}.com", too_long)));
}

#[test]
fn resolve_error_message_text() {
    let e = httpfetch::dns::Error::IpResolveError;
    assert_eq!(e.message(), "Error converting Ip address");
}
