use tls_sni::tls::{
    parse_client_hello, parse_tls_record, slice_by_len_at_range, truncate_before, SniError,
};

/// A ClientHello record wrapping the given extensions block, laid out as the
/// decoder expects it: record header, handshake header, client version,
/// 32-byte random, empty session id, one cipher suite, one null compression
/// method, then a one-byte extensions-block length.
fn build_client_hello(extensions: &[u8]) -> Vec<u8> {
    let mut body: Vec<u8> = vec![3, 3];
    body.extend([0u8; 32]);
    body.push(0);
    body.extend([0, 2, 0xc0, 0x30]);
    body.extend([1, 0]);
    body.push(extensions.len() as u8);
    body.extend_from_slice(extensions);
    let mut fragment: Vec<u8> = vec![1];
    fragment.extend([0, (body.len() >> 8) as u8, body.len() as u8]);
    fragment.extend(&body);
    let mut record: Vec<u8> = vec![22, 3, 1];
    record.extend([(fragment.len() >> 8) as u8, fragment.len() as u8]);
    record.extend(&fragment);
    record
}

/// A server_name extension entry: a two-byte list length, a name-type byte,
/// and a length-prefixed name.
fn sni_extension_with_type(name_type: u8, name: &[u8]) -> Vec<u8> {
    let list_len = name.len() + 3;
    let mut data: Vec<u8> = vec![(list_len >> 8) as u8, list_len as u8, name_type];
    data.extend([(name.len() >> 8) as u8, name.len() as u8]);
    data.extend_from_slice(name);
    let mut entry: Vec<u8> = vec![0, 0, (data.len() >> 8) as u8, data.len() as u8];
    entry.extend(&data);
    entry
}

fn sni_extension(name: &[u8]) -> Vec<u8> {
    sni_extension_with_type(0, name)
}

/// An extension entry of some other type.
fn other_extension(ext_type: [u8; 2], data: &[u8]) -> Vec<u8> {
    let mut entry: Vec<u8> = vec![
        ext_type[0],
        ext_type[1],
        (data.len() >> 8) as u8,
        data.len() as u8,
    ];
    entry.extend_from_slice(data);
    entry
}

/// A ClientHello captured from real TLS 1.2 traffic, cipher suites including
/// 0xc030.
fn sample_capture() -> Vec<u8> {
    vec![
        0x16, 0x03, 0x01, 0x00, 0xa1, 0x01, 0x00, 0x00, 0x9d, 0x03, 0x03, 0x52, 0x36, 0x2c, 0x10,
        0x12, 0xcf, 0x23, 0x62, 0x82, 0x56, 0xe7, 0x45, 0xe9, 0x03, 0xce, 0xa6, 0x96, 0xe9, 0xf6,
        0x2a, 0x60, 0xba, 0x0a, 0xe8, 0x31, 0x1d, 0x70, 0xde, 0xa5, 0xe4, 0x19, 0x49, 0x00, 0x00,
        0x04, 0xc0, 0x30, 0x00, 0xff, 0x02, 0x01, 0x00, 0x00, 0x6f, 0x00, 0x0b, 0x00, 0x04, 0x03,
        0x00, 0x01, 0x02, 0x00, 0x0a, 0x00, 0x34, 0x00, 0x32, 0x00, 0x0e, 0x00, 0x0d, 0x00, 0x19,
        0x00, 0x0b, 0x00, 0x0c, 0x00, 0x18, 0x00, 0x09, 0x00, 0x0a, 0x00, 0x16, 0x00, 0x17, 0x00,
        0x08, 0x00, 0x06, 0x00, 0x07, 0x00, 0x14, 0x00, 0x15, 0x00, 0x04, 0x00, 0x05, 0x00, 0x12,
        0x00, 0x13, 0x00, 0x01, 0x00, 0x02, 0x00, 0x03, 0x00, 0x0f, 0x00, 0x10, 0x00, 0x11, 0x00,
        0x23, 0x00, 0x00, 0x00, 0x0d, 0x00, 0x22, 0x00, 0x20, 0x06, 0x01, 0x06, 0x02, 0x06, 0x03,
        0x05, 0x01, 0x05, 0x02, 0x05, 0x03, 0x04, 0x01, 0x04, 0x02, 0x04, 0x03, 0x03, 0x01, 0x03,
        0x02, 0x03, 0x03, 0x02, 0x01, 0x02, 0x02, 0x02, 0x03, 0x01, 0x01, 0x00, 0x0f, 0x00, 0x01,
        0x01,
    ]
}

#[test]
fn test_parse() {
    let data = sample_capture();
    let hello = parse_client_hello(&data).unwrap();
    let _ = hello.server_name;
}

#[test]
fn test_sample_hostname_absent() {
    let data = sample_capture();
    let hello = parse_client_hello(&data).unwrap();
    assert_eq!(hello.server_name, None);
}

#[test]
fn test_example_com_hostname() {
    let buf = build_client_hello(&sni_extension(b"example.com"));
    let hello = parse_client_hello(&buf).unwrap();
    assert_eq!(hello.server_name.as_deref(), Some("example.com"));
}

#[test]
fn test_all_prefix_truncations() {
    let buf = build_client_hello(&sni_extension(b"example.com"));
    assert!(parse_client_hello(&buf).is_ok());
    for cut in 0..buf.len() {
        assert_eq!(
            parse_client_hello(&buf[..cut]),
            Err(SniError::InsufficientData),
            "cut at {cut}"
        );
    }
}

#[test]
fn test_not_handshake() {
    let mut buf = build_client_hello(&sni_extension(b"example.com"));
    buf[0] = 23;
    assert_eq!(parse_client_hello(&buf), Err(SniError::NotHandshake));
}

#[test]
fn test_wrong_major_version() {
    let mut buf = build_client_hello(&sni_extension(b"example.com"));
    buf[1] = 2;
    assert_eq!(parse_client_hello(&buf), Err(SniError::UnsupportedVersion));
}

#[test]
fn test_wrong_inner_version() {
    let mut buf = build_client_hello(&sni_extension(b"example.com"));
    // First byte of the handshake body: the inner client version.
    buf[9] = 2;
    assert_eq!(parse_client_hello(&buf), Err(SniError::UnsupportedVersion));
}

#[test]
fn test_not_client_hello() {
    let mut buf = build_client_hello(&sni_extension(b"example.com"));
    // First byte of the fragment: the handshake message type.
    buf[5] = 2;
    assert_eq!(parse_client_hello(&buf), Err(SniError::NotClientHello));
}

#[test]
fn test_no_server_name_extension() {
    let mut exts = other_extension([0, 0x0b], &[3, 0, 1, 2]);
    exts.extend(other_extension([0, 0x17], &[0x01]));
    let buf = build_client_hello(&exts);
    let hello = parse_client_hello(&buf).unwrap();
    assert_eq!(hello.server_name, None);
}

#[test]
fn test_empty_extensions_block() {
    let buf = build_client_hello(&[]);
    let hello = parse_client_hello(&buf).unwrap();
    assert_eq!(hello.server_name, None);
}

#[test]
fn test_multiple_extensions_any_order() {
    let mut exts = other_extension([0, 0x0b], &[3, 0, 1, 2]);
    exts.extend(sni_extension(b"example.com"));
    exts.extend(other_extension([0, 0x17], &[0x01]));
    let buf = build_client_hello(&exts);
    let hello = parse_client_hello(&buf).unwrap();
    assert_eq!(hello.server_name.as_deref(), Some("example.com"));

    let mut exts = other_extension([0, 0x23], &[0x01]);
    exts.extend(other_extension([0, 0x0b], &[3, 0, 1, 2]));
    exts.extend(sni_extension(b"b.example"));
    let buf = build_client_hello(&exts);
    let hello = parse_client_hello(&buf).unwrap();
    assert_eq!(hello.server_name.as_deref(), Some("b.example"));
}

#[test]
fn test_last_server_name_wins() {
    let mut exts = sni_extension(b"first.example");
    exts.extend(sni_extension(b"second.example"));
    let buf = build_client_hello(&exts);
    let hello = parse_client_hello(&buf).unwrap();
    assert_eq!(hello.server_name.as_deref(), Some("second.example"));
}

#[test]
fn test_non_host_name_type_skipped() {
    let buf = build_client_hello(&sni_extension_with_type(1, b"example.com"));
    let hello = parse_client_hello(&buf).unwrap();
    assert_eq!(hello.server_name, None);
}

#[test]
fn test_invalid_utf8_hostname() {
    let buf = build_client_hello(&sni_extension(&[0xff, 0xfe, 0xfd]));
    assert_eq!(parse_client_hello(&buf), Err(SniError::InvalidUtf8Hostname));
}

#[test]
fn test_empty_buffer() {
    assert_eq!(parse_client_hello(&[]), Err(SniError::InsufficientData));
}

#[test]
fn test_record_fields() {
    let data = sample_capture();
    let record = parse_tls_record(&data).unwrap();
    assert_eq!(record.content_type, 22);
    assert_eq!(record.major_version, 3);
    assert_eq!(record.minor_version, 1);
    assert_eq!(record.fragment.len(), 0xa1);
    assert_eq!(record.fragment[0], 1);
    assert_eq!(record.fragment, &data[5..]);
}

#[test]
fn test_record_insufficient() {
    // The length field declares one more byte than the buffer holds.
    let data = [22u8, 3, 1, 0, 2, 0xaa];
    assert_eq!(parse_tls_record(&data).unwrap_err(), SniError::InsufficientData);
    assert_eq!(parse_tls_record(&[22u8, 3]).unwrap_err(), SniError::InsufficientData);
}

#[test]
fn test_slice_by_len_basic() {
    let data = [1u8, 2, 3, 4];
    assert_eq!(slice_by_len_at_range(&data, 0, 1), Ok(&data[1..2]));
    assert_eq!(slice_by_len_at_range(&data, 1, 2), Ok(&data[2..4]));
    assert_eq!(slice_by_len_at_range(&data, 0, 0), Ok(&data[0..0]));
}

#[test]
fn test_slice_by_len_multibyte() {
    // A two-byte big-endian length of 0x0102 over a buffer far too short.
    let data = [1u8, 2, 3, 4];
    assert_eq!(
        slice_by_len_at_range(&data, 0, 2),
        Err(SniError::InsufficientData)
    );
    let mut long = vec![1u8, 0];
    long.extend(std::iter::repeat(7u8).take(256));
    assert_eq!(slice_by_len_at_range(&long, 0, 2), Ok(&long[2..258]));
}

#[test]
fn test_slice_by_len_out_of_range() {
    let data = [1u8, 2, 3, 4];
    assert_eq!(
        slice_by_len_at_range(&data, 3, 5),
        Err(SniError::InsufficientData)
    );
    assert_eq!(
        slice_by_len_at_range(&data, 4, 3),
        Err(SniError::InsufficientData)
    );
}

#[test]
fn test_truncate_before() {
    let data = [1u8, 2, 3, 4];
    assert_eq!(truncate_before(&data, 0, 1), Ok(&data[2..]));
    let zero_tail = [9u8, 9, 9, 0];
    assert_eq!(truncate_before(&zero_tail, 3, 4), Ok(&zero_tail[4..]));
    assert_eq!(truncate_before(&data, 2, 4), Err(SniError::InsufficientData));
}
