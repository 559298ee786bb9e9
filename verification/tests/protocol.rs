use esprit2::protocol::{checksum, frame, ClientRouting, ClientRoutingError, Unframer, DEFAULT_PORT};

#[test]
fn checksum_of_nothing_is_zero() {
    assert_eq!(checksum(&[]), 0);
}

#[test]
fn checksum_reads_little_endian_words() {
    let bytes = [1u8, 2, 3, 4, 5, 6, 7, 8];
    assert_eq!(checksum(&bytes), u64::from_le_bytes(bytes));
}

#[test]
fn checksum_xors_words_and_ignores_the_tail() {
    let mut bytes = Vec::new();
    bytes.extend_from_slice(&0x0102030405060708u64.to_le_bytes());
    bytes.extend_from_slice(&0x00000000000000ffu64.to_le_bytes());
    bytes.extend_from_slice(&[9, 9, 9]);
    assert_eq!(checksum(&bytes), 0x0102030405060708u64 ^ 0xff);
}

#[test]
fn checksum_of_a_repeated_word_is_zero() {
    let bytes = [7u8; 16];
    assert_eq!(checksum(&bytes), 0);
}

#[test]
fn routing_reads_instance_password_host_and_port() {
    let (routing, (host, port)) = ClientRouting::new("esprit://example.org:1234/7/open%20sesame").unwrap();
    let routing = routing.unwrap();
    assert_eq!(routing.instance_id, 7);
    assert_eq!(routing.instance_password.as_deref(), Some("open sesame"));
    assert_eq!(host, "example.org");
    assert_eq!(port, 1234);
}

#[test]
fn routing_defaults_to_the_default_port() {
    let (routing, (host, port)) = ClientRouting::new("esprit://localhost/3").unwrap();
    let routing = routing.unwrap();
    assert_eq!(routing.instance_id, 3);
    assert_eq!(routing.instance_password, None);
    assert_eq!(host, "localhost");
    assert_eq!(port, DEFAULT_PORT);
    assert_eq!(DEFAULT_PORT, 48578);
}

#[test]
fn routing_without_instance_is_none() {
    let (routing, (host, _)) = ClientRouting::new("esprit://localhost/").unwrap();
    assert!(routing.is_none());
    assert_eq!(host, "localhost");
}

#[test]
fn malformed_url_is_refused() {
    assert!(matches!(ClientRouting::new("not a url"), Err(ClientRoutingError::MalformedUrl(_))));
}

#[test]
fn malformed_instance_is_refused() {
    assert!(matches!(
        ClientRouting::new("esprit://localhost/seven"),
        Err(ClientRoutingError::MalformedInstance(_))
    ));
}

#[test]
fn malformed_password_is_refused() {
    assert!(matches!(
        ClientRouting::new("esprit://localhost/1/%FF"),
        Err(ClientRoutingError::MalformedPassword(_))
    ));
}

#[test]
fn url_without_host_is_refused() {
    assert!(matches!(ClientRouting::new("esprit:/1"), Err(ClientRoutingError::MissingHost)));
}

#[test]
fn repeated_words_cancel_out() {
    let block = [1u8, 2, 3, 4, 5, 6, 7, 8];
    let mut twice = block.to_vec();
    twice.extend_from_slice(&block);
    assert_eq!(checksum(&twice), 0);
    let mut with_tail = twice.clone();
    with_tail.extend_from_slice(&[9, 9, 9]);
    assert_eq!(checksum(&with_tail), 0);
}

#[test]
fn an_instance_that_is_not_a_number_is_malformed() {
    assert!(matches!(
        ClientRouting::new("esprit://example.com:1234/abc"),
        Err(ClientRoutingError::MalformedInstance(_))
    ));
    let (routing, (host, port)) = ClientRouting::new("esprit://example.com/42/hunter%20two").unwrap();
    let routing = routing.unwrap();
    assert_eq!(routing.instance_id, 42);
    assert_eq!(routing.instance_password.as_deref(), Some("hunter two"));
    assert_eq!((host.as_str(), port), ("example.com", DEFAULT_PORT));
}

#[test]
fn packets_are_prefixed_by_their_size() {
    assert_eq!(frame(&[7, 8, 9]), vec![3, 0, 0, 0, 7, 8, 9]);
    assert_eq!(frame(&[]), vec![0, 0, 0, 0]);
    let big = vec![1u8; 300];
    assert_eq!(&frame(&big)[..4], &[44, 1, 0, 0]);
}

#[test]
fn framed_packets_come_back_out_in_pieces() {
    let mut stream = frame(b"hello");
    stream.extend(frame(b""));
    stream.extend(frame(b"world!"));
    let mut unframer = Unframer::new();
    assert_eq!(unframer.wanted(), 4);
    assert!(unframer.feed(&stream[..3]).is_empty());
    assert_eq!(unframer.wanted(), 1);
    assert!(unframer.feed(&stream[3..6]).is_empty());
    assert_eq!(unframer.wanted(), 3);
    let packets = unframer.feed(&stream[6..14]);
    assert_eq!(packets, vec![b"hello".to_vec(), Vec::new()]);
    assert_eq!(unframer.feed(&stream[14..]), vec![b"world!".to_vec()]);
    assert_eq!(unframer.wanted(), 4);
}
