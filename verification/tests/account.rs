use bangdream_optimize::cipher::{
    aes_cbc_crypt, aes_decrypt_iso10126, aes_encrypt_iso10126, block_to_array, iso10126_pad,
    iso10126_unpad, xor_block, BLOCK_SIZE,
};
use bangdream_optimize::protobuf::{
    build_login_request, field_bytes, field_bytes_value, field_string, field_u64, parse_fields,
    read_exact, read_varint, u8_from, write_varint, ImportError, Persist, PersistSdk, PersistUnity,
    ProtoValue,
};
use bangdream_optimize::request_hint::{request_id_hint, suite_fetch_step, SuiteFetchDecision};
use bangdream_optimize::account::{AccountChannel, ClientVersion, CredentialImportRequest, VersionConfig};

fn fixture_persist() -> Persist {
    Persist {
        device_id: "device".to_owned(),
        sdk: PersistSdk {
            uid: "uid".to_owned(),
            access_key: "access".to_owned(),
        },
        unity: PersistUnity {
            unity_channel_id: "1".to_owned(),
            unity_platform_id: "2".to_owned(),
            client_platform: "Android".to_owned(),
            login_platform: "Android".to_owned(),
            operating_system: "Android OS".to_owned(),
            device_model: "model".to_owned(),
            client_version: "9.4.2".to_owned(),
            udid_short: "12345".to_owned(),
            client_package: "pkg".to_owned(),
        },
    }
}

#[test]
fn login_request_matches_expected_prefix_shape() {
    let persist = fixture_persist();
    let bytes = build_login_request(&persist);
    assert!(bytes.starts_with(&[0x0a, 0x03, b'u', b'i', b'd']));
}

#[test]
fn aes_round_trips_iso10126_payload() {
    let payload = b"hello bang dream";
    let encrypted = aes_encrypt_iso10126(payload).unwrap();
    assert_eq!(encrypted.len() % BLOCK_SIZE, 0);
    let decrypted = aes_decrypt_iso10126(&encrypted).unwrap();
    assert_eq!(decrypted, payload);
}

#[test]
fn request_id_hint_allows_protobuf_prefix_bytes() {
    let plain = b"\x08\x95\x03\x12\x00\x1a[URI:/api/suite/user/1008159056][newRequestId:b2d7ad89db834332295064f18aa4c5ed] X-Requestid error.";
    assert_eq!(
        request_id_hint(plain).as_deref(),
        Some("b2d7ad89db834332295064f18aa4c5ed")
    );
}

#[test]
fn request_id_hint_needs_the_error_marker_and_hex_digits() {
    let no_marker = b"[newRequestId:b2d7ad89db834332295064f18aa4c5ed]";
    assert_eq!(request_id_hint(no_marker), None);
    let old_only = b"X-Requestid error [oldRequestId:0123456789abcdef0123456789ABCDEF]";
    assert_eq!(
        request_id_hint(old_only).as_deref(),
        Some("0123456789abcdef0123456789ABCDEF")
    );
    let not_hex = b"X-Requestid error newRequestId:zzzzzzzzzzzzzzzzzzzzzzzzzzzzzzzz oldRequestId:00000000000000000000000000000000";
    assert_eq!(
        request_id_hint(not_hex).as_deref(),
        Some("00000000000000000000000000000000")
    );
    let too_short = b"X-Requestid error newRequestId:abc";
    assert_eq!(request_id_hint(too_short), None);
}

#[test]
fn login_request_encodes_every_field_in_order() {
    let bytes = build_login_request(&fixture_persist());
    let fields = parse_fields(&bytes).unwrap();
    let numbers: Vec<u64> = fields.iter().map(|field| field.field).collect();
    assert_eq!(numbers, vec![1, 2, 3, 4, 5, 6, 7, 8]);
    assert_eq!(field_bytes_value(&fields, 2), Some(&b"access"[..]));
    let udid = parse_fields(field_bytes_value(&fields, 7).unwrap()).unwrap();
    assert_eq!(field_bytes_value(&udid, 1), Some(&b"12345"[..]));
    assert_eq!(field_bytes_value(&udid, 2), Some(&b"device"[..]));
}

#[test]
fn varints_round_trip_and_reject_overlong_input() {
    for value in [0u64, 1, 127, 128, 300, 16_384, u64::MAX] {
        let mut out = Vec::new();
        write_varint(&mut out, value);
        let mut off = 0;
        assert_eq!(read_varint(&out, &mut off).unwrap(), value);
        assert_eq!(off, out.len());
    }
    let mut out = Vec::new();
    write_varint(&mut out, 300);
    assert_eq!(out, vec![0xac, 0x02]);

    let mut off = 0;
    assert_eq!(
        read_varint(&[0x80, 0x80], &mut off),
        Err(ImportError::Protobuf("bad varint".to_owned()))
    );
    assert_eq!(off, 2);
    let mut off = 0;
    assert!(read_varint(&[0xff; 11], &mut off).is_err());
    assert_eq!(off, 10);
}

#[test]
fn read_exact_rejects_overruns() {
    let mut off = 1;
    assert_eq!(read_exact(&[1, 2, 3], &mut off, 2).unwrap(), vec![2, 3]);
    assert_eq!(off, 3);
    assert_eq!(
        read_exact(&[1, 2, 3], &mut off, 1),
        Err(ImportError::Protobuf("length overrun".to_owned()))
    );
    assert_eq!(off, 3);
}

#[test]
fn parses_every_wire_type_and_reports_unknown_ones() {
    let mut buf = Vec::new();
    write_varint(&mut buf, (1 << 3) | 0);
    write_varint(&mut buf, 150);
    write_varint(&mut buf, (2 << 3) | 1);
    buf.extend_from_slice(&7u64.to_le_bytes());
    field_string(&mut buf, 3, "hi");
    write_varint(&mut buf, (4 << 3) | 5);
    buf.extend_from_slice(&9u32.to_le_bytes());
    let fields = parse_fields(&buf).unwrap();
    assert_eq!(fields.len(), 4);
    assert_eq!(fields[0].value, ProtoValue::Varint(150));
    assert_eq!(fields[1].value, ProtoValue::Fixed64(7));
    assert_eq!(fields[2].value, ProtoValue::Bytes(b"hi".to_vec()));
    assert_eq!(fields[3].value, ProtoValue::Fixed32(9));
    assert_eq!(field_u64(&fields, 1), Some(150));
    assert_eq!(field_u64(&fields, 4), Some(9));
    assert_eq!(field_u64(&fields, 3), None);
    assert_eq!(field_u64(&fields, 9), None);
    assert_eq!(field_bytes_value(&fields, 1), None);
    assert_eq!(
        fields[0].bytes_value(),
        Err(ImportError::Protobuf("field 1 is not length-delimited".to_owned()))
    );

    let mut bad = Vec::new();
    write_varint(&mut bad, (5 << 3) | 3);
    assert_eq!(
        parse_fields(&bad),
        Err(ImportError::Protobuf("unsupported wire type 3".to_owned()))
    );
    let mut short = Vec::new();
    field_bytes(&mut short, 1, b"abc");
    short.pop();
    assert_eq!(
        parse_fields(&short),
        Err(ImportError::Protobuf("length overrun".to_owned()))
    );
}

#[test]
fn u8_from_keeps_only_byte_values() {
    assert_eq!(u8_from(Some(200)), 200);
    assert_eq!(u8_from(Some(256)), 0);
    assert_eq!(u8_from(None), 0);
}

#[test]
fn iso10126_padding_fills_to_whole_blocks() {
    assert_eq!(iso10126_pad(b"abc").len(), 16);
    assert_eq!(iso10126_pad(b"abc")[15], 13);
    let full = iso10126_pad(&[1u8; 16]);
    assert_eq!(full.len(), 32);
    assert_eq!(full[31], 16);
    assert_eq!(iso10126_unpad(&iso10126_pad(b"abc")).unwrap(), b"abc".to_vec());
    assert_eq!(
        iso10126_unpad(&[]),
        Err(ImportError::Crypto("missing ISO10126 padding".to_owned()))
    );
    assert_eq!(
        iso10126_unpad(&[1, 2, 17]),
        Err(ImportError::Crypto("invalid ISO10126 pad length 17".to_owned()))
    );
    assert_eq!(
        iso10126_unpad(&[0]),
        Err(ImportError::Crypto("invalid ISO10126 pad length 0".to_owned()))
    );
}

#[test]
fn cbc_rejects_partial_blocks_and_chains_blocks() {
    let mut data = vec![0u8; 15];
    assert_eq!(
        aes_cbc_crypt(&mut data, false),
        Err(ImportError::Crypto("AES-CBC data is not block aligned".to_owned()))
    );
    assert_eq!(data, vec![0u8; 15]);
    let mut data = vec![0u8; 32];
    aes_cbc_crypt(&mut data, false).unwrap();
    assert_ne!(data[..16], data[16..]);
    aes_cbc_crypt(&mut data, true).unwrap();
    assert_eq!(data, vec![0u8; 32]);
    assert_eq!(
        aes_decrypt_iso10126(&[1, 2, 3]),
        Err(ImportError::Crypto("invalid AES block length".to_owned()))
    );
}

#[test]
fn xor_and_block_copy() {
    let mut block = block_to_array(&[0xffu8; 16]);
    xor_block(&mut block, &[0x0fu8; 16]);
    assert_eq!(block, [0xf0u8; 16]);
}

#[test]
fn requests_require_explicit_channel_and_reject_caller_uid() {
    let mut req = CredentialImportRequest {
        account: "test@example.invalid".into(),
        password: "sample-password".into(),
        channel: AccountChannel::Android,
    };
    assert!(req.validate().is_ok());
    req.password.clear();
    assert!(req.validate().is_err());
    assert!(parse_fields(&[0]).is_err());
    assert!(parse_fields(&[8, 255, 255, 255, 255, 255, 255, 255, 255, 255, 2]).is_err());
}

fn version(client: &str) -> ClientVersion {
    ClientVersion { client: client.to_owned(), code: "123".to_owned(), unity: "2021.3.45f1".to_owned() }
}

#[test]
fn resolve_prefers_the_stored_version_and_refreshes_otherwise() {
    let config = VersionConfig::new("unused".to_owned());
    let ok = |v: &ClientVersion| if v.client == "9.9.9" { Ok(1u8) } else { Err(ImportError::Account("old".to_owned())) };

    let (v, t) = config
        .resolve(|| Ok(version("9.9.9")), ok, || Err(ImportError::Account("no".to_owned())), |_: &ClientVersion| Ok(()))
        .unwrap();
    assert_eq!((v.client.as_str(), t), ("9.9.9", 1));

    let (v, _) = config
        .resolve(|| Ok(version("1.0.0")), ok, || Ok(version("9.9.9")), |_: &ClientVersion| Ok(()))
        .unwrap();
    assert_eq!(v.client, "9.9.9");

    let error = config
        .resolve(|| Err(ImportError::Account("x".to_owned())), ok, || Ok(version("bad")), |_: &ClientVersion| Ok(()))
        .unwrap_err();
    assert_eq!(error, ImportError::Account("国服客户端版本配置格式异常".to_owned()));

    let error = config
        .resolve(|| Ok(version("1.0.0")), ok, || Ok(version("9.9.9")), |_: &ClientVersion| Err(ImportError::Account("disk".to_owned())))
        .unwrap_err();
    assert_eq!(error, ImportError::Account("disk".to_owned()));
}

#[test]
fn varint_reads_back_between_other_bytes() {
    for value in [0u64, 127, 128, 1 << 35, u64::MAX] {
        let mut buf = vec![0xff, 0x80, 0x07];
        let start = buf.len();
        write_varint(&mut buf, value);
        let end = buf.len();
        assert!(1 <= end - start && end - start <= 10);
        buf.extend_from_slice(&[0x81, 0x00]);
        let mut off = start;
        assert_eq!(read_varint(&buf, &mut off).unwrap(), value);
        assert_eq!(off, end);
    }
}

#[test]
fn aes_ciphertext_is_the_payload_padded_to_whole_blocks() {
    for (len, expected) in [(0usize, 16usize), (1, 16), (15, 16), (16, 32), (17, 32), (33, 48)] {
        let payload = vec![0x5au8; len];
        let encrypted = aes_encrypt_iso10126(&payload).unwrap();
        assert_eq!(encrypted.len(), expected);
        assert_eq!(aes_decrypt_iso10126(&encrypted).unwrap(), payload);
    }
}

fn retry_reply() -> Vec<u8> {
    aes_encrypt_iso10126(b"\x1a[URI:/api/suite/user/42][newRequestId:b2d7ad89db834332295064f18aa4c5ed] X-Requestid error.").unwrap()
}

#[test]
fn suite_fetch_retries_under_the_suggested_request_id() {
    match suite_fetch_step(0, 400, &retry_reply(), 42) {
        SuiteFetchDecision::Retry { request_id } => assert_eq!(request_id, "b2d7ad89db834332295064f18aa4c5ed"),
        other => panic!("unexpected {:?}", other),
    }
    match suite_fetch_step(1, 200, &retry_reply(), 42) {
        SuiteFetchDecision::Retry { .. } => {}
        other => panic!("unexpected {:?}", other),
    }
}

#[test]
fn suite_fetch_gives_up_after_the_last_attempt() {
    let plain_len = aes_decrypt_iso10126(&retry_reply()).unwrap().len();
    match suite_fetch_step(2, 400, &retry_reply(), 42) {
        SuiteFetchDecision::Fail(ImportError::Protobuf(m)) => assert_eq!(
            m,
            format!("suite user request-id retry exhausted; last response len={plain_len}")
        ),
        other => panic!("unexpected {:?}", other),
    }
}

#[test]
fn suite_fetch_reports_a_failed_status_and_returns_the_suite() {
    let body = aes_encrypt_iso10126(b"\x0a\x00").unwrap();
    match suite_fetch_step(0, 503, &body, 42) {
        SuiteFetchDecision::Fail(ImportError::HttpStatus { status, context }) => {
            assert_eq!(status, 503);
            assert_eq!(context, "GET /suite/user/42 failed");
        }
        other => panic!("unexpected {:?}", other),
    }
    match suite_fetch_step(2, 200, &body, 42) {
        SuiteFetchDecision::Done { plain } => assert_eq!(plain, b"\x0a\x00".to_vec()),
        other => panic!("unexpected {:?}", other),
    }
    assert!(matches!(
        suite_fetch_step(0, 200, &[1, 2, 3], 42),
        SuiteFetchDecision::Fail(ImportError::Crypto(_))
    ));
}
