use phirarec::{
    classify_header, decimal_text, decompress_payload, detect_format, is_phirarec, parse_record,
    parse_tphira_content, read_string, read_uleb, FormatDetection, JudgeEvent, RecordError,
    TouchPoint, ValueKind, COMPRESSION_DEFLATE, COMPRESSION_NONE, COMPRESSION_ZSTD,
};

const MAGIC: &[u8; 8] = b"PHIRAREC";

fn header(compression: u8) -> Vec<u8> {
    let mut data = Vec::new();
    data.extend(MAGIC);
    data.extend(&1u32.to_le_bytes());
    data.push(compression);
    data
}

fn minimal_content() -> Vec<u8> {
    let mut content = Vec::new();
    content.extend(&42i32.to_le_bytes());
    content.extend(&1234567890i64.to_le_bytes());
    content.extend(&100i32.to_le_bytes());
    content.push(3u8);
    content.extend(b"SP.");
    content.extend(&999i32.to_le_bytes());
    content.push(4u8);
    content.extend(b"Test");
    content.push(0u8);
    content.push(0u8);
    content
}

/// Wraps bytes in a single stored (uncompressed) raw DEFLATE block.
fn deflate_stored(content: &[u8]) -> Vec<u8> {
    let len = content.len() as u16;
    let mut out = vec![0x01];
    out.extend(&len.to_le_bytes());
    out.extend(&(!len).to_le_bytes());
    out.extend(content);
    out
}

const ZSTD_MINIMAL: &[u8] = &[
    0x28, 0xb5, 0x2f, 0xfd, 0x20, 0x1a, 0xb5, 0x00, 0x00, 0x80, 0x2a, 0x00, 0x01, 0x00, 0x00,
    0x00, 0x01, 0x41, 0x00, 0x00, 0x00, 0x00, 0x01, 0x42, 0x00, 0x00, 0x01, 0x00, 0x1b, 0xc0,
    0x02,
];

// ---------------------------------------------------------------------------
// Tests carried over
// ---------------------------------------------------------------------------

#[test]
fn test_uleb_small() {
    let data = [0x2A];
    let mut pos = 0;
    assert_eq!(read_uleb(&data, &mut pos).unwrap(), 42);
    assert_eq!(pos, 1);
}

#[test]
fn test_uleb_two_byte() {
    // 0x1E65 = 7781: low group 0x65 with the continuation bit (0xE5), then 0x3C.
    let data = [0xE5, 0x3C];
    let mut pos = 0;
    assert_eq!(read_uleb(&data, &mut pos).unwrap(), 0x1E65);
    assert_eq!(pos, 2);
}

#[test]
fn test_invalid_magic() {
    let data = b"NOTREC\0\0\0\0\0\0\0\0";
    assert!(parse_record(data).is_err());
}

#[test]
fn test_is_phirarec() {
    let mut data = vec![0u8; 13];
    data[..8].copy_from_slice(b"PHIRAREC");
    data[8..12].copy_from_slice(&1u32.to_le_bytes());
    assert!(is_phirarec(&data));
}

#[test]
fn test_parse_minimal_tphira() {
    let content = minimal_content();
    let mut data = Vec::new();
    data.extend(MAGIC);
    data.extend(&1u32.to_le_bytes());
    data.push(COMPRESSION_NONE);
    data.extend(&content);

    let record = parse_record(&data).unwrap();
    assert_eq!(record.version, 1);
    assert_eq!(record.compression, COMPRESSION_NONE);
    assert_eq!(record.record_id, 42);
    assert_eq!(record.timestamp_ms, 1234567890);
    assert_eq!(record.chart_id, 100);
    assert_eq!(record.chart_name, "SP.");
    assert_eq!(record.user_id, 999);
    assert_eq!(record.user_name, "Test");
    assert!(record.touches.is_empty());
    assert!(record.judges.is_empty());
}

#[test]
fn test_parse_minimal_zstd() {
    let mut data = Vec::new();
    data.extend(MAGIC);
    data.extend(&1u32.to_le_bytes());
    data.push(COMPRESSION_ZSTD);
    data.extend(ZSTD_MINIMAL);

    let record = parse_record(&data).unwrap();
    assert_eq!(record.record_id, 42);
    assert_eq!(record.chart_name, "A");
    assert_eq!(record.user_name, "B");
}

#[test]
fn test_encrypted_detection() {
    let mut data = Vec::new();
    data.extend(MAGIC);
    data.extend(&1u32.to_le_bytes());
    data.push(1u8);
    data.push(0x28u8);
    data.extend(&12345u64.to_le_bytes());
    data.extend(&0xDEADBEEFu32.to_le_bytes());
    data.extend(&0i64.to_le_bytes());
    data.extend(&0u32.to_le_bytes());
    data.push(0u8);

    let err = parse_record(&data).unwrap_err();
    assert!(
        err.message().contains("已加密"),
        "expected encryption error, got: {:?}",
        err
    );
}

// ---------------------------------------------------------------------------
// LEB128
// ---------------------------------------------------------------------------

#[test]
fn uleb_ends_inside_number() {
    let data = [0xE5, 0x8E];
    let mut pos = 0;
    assert_eq!(
        read_uleb(&data, &mut pos),
        Err(RecordError::UnexpectedEnd(ValueKind::Uleb128))
    );
    assert_eq!(pos, 2);
}

#[test]
fn uleb_empty_and_past_end() {
    let mut pos = 0;
    assert_eq!(
        read_uleb(&[], &mut pos),
        Err(RecordError::UnexpectedEnd(ValueKind::Uleb128))
    );
    assert_eq!(pos, 0);
    let mut pos = 5;
    assert_eq!(
        read_uleb(&[1, 2], &mut pos),
        Err(RecordError::UnexpectedEnd(ValueKind::Uleb128))
    );
    assert_eq!(pos, 5);
}

#[test]
fn uleb_ten_bytes_maximum() {
    let data = [0xff, 0xff, 0xff, 0xff, 0xff, 0xff, 0xff, 0xff, 0xff, 0x01];
    let mut pos = 0;
    assert_eq!(read_uleb(&data, &mut pos), Ok(u64::MAX));
    assert_eq!(pos, 10);
}

#[test]
fn uleb_tenth_group_keeps_its_low_bit_only() {
    let data = [0x80, 0x80, 0x80, 0x80, 0x80, 0x80, 0x80, 0x80, 0x80, 0x7f];
    let mut pos = 0;
    assert_eq!(read_uleb(&data, &mut pos), Ok(0x8000_0000_0000_0000));
    assert_eq!(pos, 10);
}

#[test]
fn uleb_too_large() {
    let data = [0x80u8; 12];
    let mut pos = 0;
    assert_eq!(read_uleb(&data, &mut pos), Err(RecordError::UlebTooLarge));
    assert_eq!(pos, 10);
}

#[test]
fn uleb_at_offset() {
    let data = [0x00, 0x05, 0x81, 0x01, 0x07];
    let mut pos = 2;
    assert_eq!(read_uleb(&data, &mut pos), Ok(129));
    assert_eq!(pos, 4);
}

// ---------------------------------------------------------------------------
// Strings
// ---------------------------------------------------------------------------

#[test]
fn string_ascii() {
    let data = [0x03, b'a', b'b', b'c', 0x09];
    let mut pos = 0;
    assert_eq!(read_string(&data, &mut pos).unwrap(), "abc");
    assert_eq!(pos, 4);
}

#[test]
fn string_invalid_utf8_is_replaced() {
    let data = [0x02, 0xff, b'x'];
    let mut pos = 0;
    assert_eq!(read_string(&data, &mut pos).unwrap(), "\u{FFFD}x");
    assert_eq!(pos, 3);
}

#[test]
fn string_utf8() {
    let text = "谱面";
    let mut data = vec![text.len() as u8];
    data.extend(text.as_bytes());
    let mut pos = 0;
    assert_eq!(read_string(&data, &mut pos).unwrap(), text);
    assert_eq!(pos, data.len());
}

#[test]
fn string_longer_than_data() {
    let data = [0x05, b'a', b'b'];
    let mut pos = 0;
    assert_eq!(read_string(&data, &mut pos), Err(RecordError::StringTooLong(5)));
    assert_eq!(pos, 1);
}

#[test]
fn string_huge_length_is_an_error() {
    let data = [0xff, 0xff, 0xff, 0xff, 0xff, 0xff, 0xff, 0xff, 0xff, 0x01, b'a'];
    let mut pos = 0;
    assert_eq!(
        read_string(&data, &mut pos),
        Err(RecordError::StringTooLong(u64::MAX))
    );
}

// ---------------------------------------------------------------------------
// Decompression and detection
// ---------------------------------------------------------------------------

#[test]
fn decompress_stored() {
    assert_eq!(decompress_payload(COMPRESSION_NONE, &[1, 2, 3]), Ok(vec![1, 2, 3]));
}

#[test]
fn decompress_unknown_algorithm() {
    assert_eq!(
        decompress_payload(3, &[1, 2, 3]),
        Err(RecordError::UnsupportedCompression(3))
    );
}

#[test]
fn decompress_deflate() {
    let stream = deflate_stored(b"abc");
    assert_eq!(
        decompress_payload(COMPRESSION_DEFLATE, &stream),
        Ok(b"abc".to_vec())
    );
    assert_eq!(
        decompress_payload(COMPRESSION_DEFLATE, &[0xff, 0xff]),
        Err(RecordError::DeflateFailed)
    );
}

#[test]
fn decompress_zstd() {
    let out = decompress_payload(COMPRESSION_ZSTD, ZSTD_MINIMAL).unwrap();
    assert_eq!(out.len(), 26);
    assert_eq!(&out[..4], &42i32.to_le_bytes());
    assert_eq!(
        decompress_payload(COMPRESSION_ZSTD, &[1, 2, 3, 4, 5]),
        Err(RecordError::ZstdFailed)
    );
}

#[test]
fn detect_each_kind() {
    assert_eq!(detect_format(b"PHIRAREC"), FormatDetection::TooSmall);
    assert_eq!(detect_format(b"NOTREC\0\0\0\0\0\0\0\0"), FormatDetection::BadMagic);
    assert_eq!(
        detect_format(&header(COMPRESSION_NONE)),
        FormatDetection::TphiraMp { compression: 0 }
    );
    let mut zstd = header(COMPRESSION_ZSTD);
    zstd.extend(ZSTD_MINIMAL);
    assert_eq!(detect_format(&zstd), FormatDetection::TphiraMp { compression: 1 });
    let mut deflate = header(COMPRESSION_DEFLATE);
    deflate.extend(deflate_stored(&minimal_content()));
    assert_eq!(detect_format(&deflate), FormatDetection::TphiraMp { compression: 2 });
    assert_eq!(detect_format(&header(7)), FormatDetection::Unknown);
    let mut bad_zstd = header(COMPRESSION_ZSTD);
    bad_zstd.extend(&[0u8; 13]);
    assert_eq!(detect_format(&bad_zstd), FormatDetection::Unknown);
    let mut encrypted = header(1);
    encrypted.push(0x28);
    encrypted.extend(&12345u64.to_le_bytes());
    encrypted.extend(&1u32.to_le_bytes());
    assert_eq!(detect_format(&encrypted), FormatDetection::PhiraClientEncrypted);
}

#[test]
fn classify_with_given_decompression() {
    let mut data = header(1);
    data.push(0x28);
    data.extend(&12345u64.to_le_bytes());
    data.extend(&7u32.to_le_bytes());
    assert_eq!(classify_header(&data, true), FormatDetection::TphiraMp { compression: 1 });
    assert_eq!(classify_header(&data, false), FormatDetection::PhiraClientEncrypted);
    data[22..26].copy_from_slice(&0u32.to_le_bytes());
    assert_eq!(classify_header(&data, false), FormatDetection::Unknown);
    assert_eq!(classify_header(&header(5), true), FormatDetection::Unknown);
    assert_eq!(classify_header(&[0u8; 12], true), FormatDetection::TooSmall);
}

// ---------------------------------------------------------------------------
// Whole files
// ---------------------------------------------------------------------------

#[test]
fn each_header_error() {
    assert_eq!(parse_record(b"PHIRAREC\x01\0\0").unwrap_err(), RecordError::TooSmall);
    assert_eq!(parse_record(b"NOTREC\0\0\0\0\0\0\0\0").unwrap_err(), RecordError::BadMagic);
    assert_eq!(parse_record(&header(9)).unwrap_err(), RecordError::UnknownFormat);
    let mut encrypted = header(1);
    encrypted.push(0);
    encrypted.extend(&1u64.to_le_bytes());
    encrypted.extend(&0xDEADBEEFu32.to_le_bytes());
    assert_eq!(parse_record(&encrypted).unwrap_err(), RecordError::Encrypted);
}

#[test]
fn truncated_payload_errors() {
    let mut data = header(COMPRESSION_NONE);
    data.extend(&42i32.to_le_bytes());
    data.extend(&[0u8; 3]);
    assert_eq!(
        parse_record(&data).unwrap_err(),
        RecordError::UnexpectedEnd(ValueKind::I64)
    );
    assert_eq!(
        parse_record(&header(COMPRESSION_NONE)).unwrap_err(),
        RecordError::UnexpectedEnd(ValueKind::I32)
    );
    let mut content = minimal_content();
    content.pop();
    assert_eq!(
        parse_tphira_content(&content).unwrap_err(),
        RecordError::UnexpectedEnd(ValueKind::Uleb128)
    );
}

#[test]
fn deflate_record() {
    let mut data = header(COMPRESSION_DEFLATE);
    data.extend(deflate_stored(&minimal_content()));
    let record = parse_record(&data).unwrap();
    assert_eq!(record.compression, COMPRESSION_DEFLATE);
    assert_eq!(record.version, 1);
    assert_eq!(record.chart_name, "SP.");
    assert_eq!(record.user_id, 999);
}

fn full_content() -> Vec<u8> {
    let mut content = Vec::new();
    content.extend(&(-7i32).to_le_bytes());
    content.extend(&(-1i64).to_le_bytes());
    content.extend(&i32::MIN.to_le_bytes());
    content.push(1);
    content.extend(b"C");
    content.extend(&i32::MAX.to_le_bytes());
    content.push(0);
    // two frames
    content.push(2);
    content.extend(&1.5f32.to_bits().to_le_bytes());
    content.push(2);
    content.push(0xffu8);
    content.extend(&0x3C00u16.to_le_bytes());
    content.extend(&0xC000u16.to_le_bytes());
    content.push(3);
    content.extend(&0x0000u16.to_le_bytes());
    content.extend(&0x3800u16.to_le_bytes());
    content.extend(&0.25f32.to_bits().to_le_bytes());
    content.push(0);
    // one judge event
    content.push(1);
    content.extend(&2.0f32.to_bits().to_le_bytes());
    content.extend(&(-3i32).to_le_bytes());
    content.extend(&300i32.to_le_bytes());
    content.push(5);
    content
}

#[test]
fn content_with_touches_and_judges() {
    let record = parse_tphira_content(&full_content()).unwrap();
    assert_eq!(record.version, 1);
    assert_eq!(record.compression, COMPRESSION_ZSTD);
    assert_eq!(record.record_id, -7);
    assert_eq!(record.timestamp_ms, -1);
    assert_eq!(record.chart_id, i32::MIN);
    assert_eq!(record.chart_name, "C");
    assert_eq!(record.user_id, i32::MAX);
    assert_eq!(record.user_name, "");
    assert_eq!(record.touches.len(), 2);
    assert_eq!(record.touches[0].time_bits, 1.5f32.to_bits());
    assert_eq!(
        record.touches[0].points,
        vec![
            TouchPoint { id: -1, x_bits: 0x3C00, y_bits: 0xC000 },
            TouchPoint { id: 3, x_bits: 0x0000, y_bits: 0x3800 },
        ]
    );
    assert_eq!(record.touches[1].time_bits, 0.25f32.to_bits());
    assert!(record.touches[1].points.is_empty());
    assert_eq!(
        record.judges,
        vec![JudgeEvent { time_bits: 2.0f32.to_bits(), line_id: -3, note_id: 300, judgement: 5 }]
    );
}

#[test]
fn trailing_bytes_are_ignored() {
    let mut content = full_content();
    let plain = parse_tphira_content(&content).unwrap();
    content.extend(&[0xAA, 0xBB, 0xCC]);
    let extended = parse_tphira_content(&content).unwrap();
    assert_eq!(plain.touches.len(), extended.touches.len());
    assert_eq!(plain.judges, extended.judges);
    assert_eq!(plain.user_id, extended.user_id);
}

#[test]
fn judge_section_cut_short() {
    let mut content = full_content();
    content.pop();
    assert_eq!(
        parse_tphira_content(&content).unwrap_err(),
        RecordError::UnexpectedEnd(ValueKind::U8)
    );
    let mut content = full_content();
    content.truncate(content.len() - 13);
    assert_eq!(
        parse_tphira_content(&content).unwrap_err(),
        RecordError::UnexpectedEnd(ValueKind::F32)
    );
}

#[test]
fn error_messages() {
    assert_eq!(RecordError::Encrypted.message(), "此文件已加密，需要 Phira 客户端才能解密。");
    assert_eq!(RecordError::UlebTooLarge.message(), "ULEB128 value too large");
    assert_eq!(
        RecordError::UnexpectedEnd(ValueKind::F32).message(),
        "unexpected end of data while reading f32"
    );
    assert_eq!(
        RecordError::UnexpectedEnd(ValueKind::Uleb128).message(),
        "unexpected end of data while reading ULEB128"
    );
    assert_eq!(
        RecordError::UnsupportedCompression(7).message(),
        "unsupported compression algorithm: 7"
    );
    assert_eq!(
        RecordError::UnsupportedCompression(255).message(),
        "unsupported compression algorithm: 255"
    );
    assert_eq!(
        RecordError::StringTooLong(1234).message(),
        "string length 1234 exceeds remaining data"
    );
    assert_eq!(
        RecordError::TooSmall.message(),
        "file too small for .phirarec header (need at least 13 bytes)"
    );
    assert_eq!(RecordError::ZstdFailed.message(), "ZSTD decompression failed");
    assert_eq!(RecordError::DeflateFailed.message(), "DEFLATE decompression failed");
    assert_eq!(ValueKind::F32.name(), "f32");
    assert_eq!(ValueKind::Uleb128.name(), "ULEB128");
}

#[test]
fn decimal_numerals() {
    assert_eq!(decimal_text(0), "0");
    assert_eq!(decimal_text(9), "9");
    assert_eq!(decimal_text(10), "10");
    assert_eq!(decimal_text(1907), "1907");
    assert_eq!(decimal_text(u64::MAX), "18446744073709551615");
}

#[test]
fn unsupported_compression_text_names_the_byte() {
    let err = decompress_payload(3, &[1, 2, 3]).unwrap_err();
    assert_eq!(err.message(), "unsupported compression algorithm: 3");
}

fn leb128(mut v: u64) -> Vec<u8> {
    let mut out = Vec::new();
    loop {
        let group = (v & 0x7f) as u8;
        v >>= 7;
        if v == 0 {
            out.push(group);
            return out;
        }
        out.push(group | 0x80);
    }
}

#[test]
fn shortest_encodings_read_back_anywhere() {
    let values = [0u64, 1, 127, 128, 300, 0x1E65, 16383, 16384, u32::MAX as u64, 1 << 63, u64::MAX];
    for &v in &values {
        let enc = leb128(v);
        assert!(enc.len() <= 10);
        for before in [0usize, 1, 5] {
            let mut data = vec![0xAAu8; before];
            data.extend(&enc);
            data.extend([0x80u8, 0xFF, 0x01]);
            let mut pos = before;
            assert_eq!(read_uleb(&data, &mut pos), Ok(v));
            assert_eq!(pos, before + enc.len());
        }
    }
    assert_eq!(leb128(u64::MAX).len(), 10);
}

#[test]
fn every_proper_prefix_of_a_payload_fails() {
    for content in [full_content(), minimal_content()] {
        assert!(parse_tphira_content(&content).is_ok());
        for k in 0..content.len() {
            assert!(parse_tphira_content(&content[..k]).is_err(), "prefix of length {k} read");
        }
    }
}

#[test]
fn ascii_names_read_back_as_themselves() {
    let data = [3u8, b'S', b'P', b'.'];
    let mut pos = 0;
    assert_eq!(read_string(&data, &mut pos).unwrap(), "SP.");
    assert_eq!(pos, 4);
}
