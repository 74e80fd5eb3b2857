use firmion::esp_checksum::{
    esp_checksum, EspChecksum, EspChecksumError, ParamArg, ParamKind,
};

#[test]
fn test_esp_checksum_valid() {
    let extension = EspChecksum;
    let mut out_buffer = [0u8; 1];
    // 1 segment, magic = 0xE9, seg_count = 1
    // segment header: load addr = [0, 0, 0, 0], size = [2, 0, 0, 0] (2 bytes)
    // payload: [0xAA, 0xBB]
    // offset = 8
    let img = vec![
        0xE9, 1, 0, 0, 0, 0, 0, 0, // file header
        0, 0, 0, 0, 2, 0, 0, 0, // segment header: size = 2
        0xAA, 0xBB, // payload
    ];
    let args = vec![ParamArg::Slice { data: &img }, ParamArg::Int(8)];
    let res = extension.execute(&args, &mut out_buffer);
    assert!(res.is_ok());
    // checksum = 0xEF ^ 0xAA ^ 0xBB = 0xFE
    assert_eq!(out_buffer[0], 0xFE);
}

#[test]
fn test_esp_checksum_offset_overflow() {
    let extension = EspChecksum;
    let mut out_buffer = [0u8; 1];
    let img = vec![0xE9, 1, 0, 0];
    let args = vec![ParamArg::Slice { data: &img }, ParamArg::Int(usize::MAX as u64)];
    let res = extension.execute(&args, &mut out_buffer);
    assert!(res.is_err());
    assert!(res.unwrap_err().contains("offset overflow"));
}

#[test]
fn test_esp_checksum_header_extends_past() {
    let extension = EspChecksum;
    let mut out_buffer = [0u8; 1];
    let img = vec![0xE9, 1, 0, 0];
    let args = vec![ParamArg::Slice { data: &img }, ParamArg::Int(2)];
    let res = extension.execute(&args, &mut out_buffer);
    assert!(res.is_err());
    assert!(res.unwrap_err().contains("extends past end of image"));
}

#[test]
fn test_esp_checksum_payload_extends_past() {
    let extension = EspChecksum;
    let mut out_buffer = [0u8; 1];
    // 1 segment, size = 100 bytes (extends past end of image)
    let img = vec![0xE9, 1, 0, 0, 0, 0, 0, 0, 0, 0, 0, 0, 100, 0, 0, 0];
    let args = vec![ParamArg::Slice { data: &img }, ParamArg::Int(8)];
    let res = extension.execute(&args, &mut out_buffer);
    assert!(res.is_err());
    assert!(res.unwrap_err().contains("extends past end of image"));
}

#[test]
fn esp_declares_name_size_and_params() {
    let extension = EspChecksum;
    assert_eq!(extension.name(), "std::esp_checksum");
    assert_eq!(extension.size(), 1);
    let params = extension.params();
    assert_eq!(params.len(), 2);
    assert_eq!(params[0].name, "data");
    assert_eq!(params[0].kind, ParamKind::Slice);
    assert_eq!(params[1].name, "offset");
    assert_eq!(params[1].kind, ParamKind::Int);
}

#[test]
fn esp_missing_arguments() {
    let extension = EspChecksum;
    let mut out = [7u8; 1];
    let none: Vec<ParamArg> = Vec::new();
    assert_eq!(
        extension.execute(&none, &mut out).unwrap_err(),
        "std::esp_checksum: missing data argument"
    );
    let not_slice = vec![ParamArg::Int(8), ParamArg::Int(8)];
    assert_eq!(
        extension.execute(&not_slice, &mut out).unwrap_err(),
        "std::esp_checksum: args[0] must be a section slice"
    );
    let img = vec![0xE9u8, 0];
    let only_data = vec![ParamArg::Slice { data: &img }];
    assert_eq!(
        extension.execute(&only_data, &mut out).unwrap_err(),
        "std::esp_checksum: missing or wrong type for offset argument"
    );
    let two_slices = vec![ParamArg::Slice { data: &img }, ParamArg::Slice { data: &img }];
    assert_eq!(
        extension.execute(&two_slices, &mut out).unwrap_err(),
        "std::esp_checksum: missing or wrong type for offset argument"
    );
    // A failed call leaves the output alone.
    assert_eq!(out[0], 7);
}

#[test]
fn esp_image_too_small_and_bad_magic() {
    let extension = EspChecksum;
    let mut out = [0u8; 1];
    let tiny = vec![0xE9u8];
    let args = vec![ParamArg::Slice { data: &tiny }, ParamArg::Int(8)];
    assert_eq!(
        extension.execute(&args, &mut out).unwrap_err(),
        "std::esp_checksum: image too small to contain header"
    );
    let bad = vec![0x7Fu8, 0];
    let args = vec![ParamArg::Slice { data: &bad }, ParamArg::Int(8)];
    assert_eq!(
        extension.execute(&args, &mut out).unwrap_err(),
        "std::esp_checksum: invalid magic byte 0x7F, expected 0xE9"
    );
    let bad = vec![0x05u8, 0];
    assert_eq!(
        esp_checksum(&bad, 8),
        Err(EspChecksumError::BadMagic(5))
    );
    assert_eq!(
        EspChecksumError::BadMagic(5).message(),
        "std::esp_checksum: invalid magic byte 0x05, expected 0xE9"
    );
}

#[test]
fn esp_error_texts_name_segment_and_offset() {
    let img = vec![0xE9u8, 1, 0, 0];
    assert_eq!(
        esp_checksum(&img, 2),
        Err(EspChecksumError::HeaderPastEnd { segment: 0, offset: 2 })
    );
    assert_eq!(
        EspChecksumError::HeaderPastEnd { segment: 0, offset: 2 }.message(),
        "std::esp_checksum: segment 0 header at offset 2 extends past end of image"
    );
    let img = vec![0xE9u8, 1, 0, 0, 0, 0, 0, 0, 0, 0, 0, 0, 100, 0, 0, 0];
    assert_eq!(
        esp_checksum(&img, 8),
        Err(EspChecksumError::PayloadPastEnd { segment: 0, offset: 16 })
    );
    assert_eq!(
        EspChecksumError::PayloadPastEnd { segment: 12, offset: 1024 }.message(),
        "std::esp_checksum: segment 12 payload at offset 1024 extends past end of image"
    );
    assert_eq!(
        EspChecksumError::OffsetOverflow.message(),
        "std::esp_checksum: offset overflow"
    );
    assert_eq!(
        EspChecksumError::PayloadLengthOverflow.message(),
        "std::esp_checksum: payload length overflow"
    );
}

#[test]
fn esp_two_segments_and_esp32_offset() {
    // ESP32 layout: segment headers start at 24.
    let mut img = vec![0u8; 24];
    img[0] = 0xE9;
    img[1] = 2;
    img.extend_from_slice(&[0x00, 0x10, 0x00, 0x40, 3, 0, 0, 0, 0x01, 0x02, 0x04]);
    img.extend_from_slice(&[0x00, 0x20, 0x00, 0x40, 1, 0, 0, 0, 0x80]);
    assert_eq!(esp_checksum(&img, 24), Ok(0xEF ^ 0x01 ^ 0x02 ^ 0x04 ^ 0x80));
    // The second segment is missing its last byte once the image is cut short.
    let cut = &img[..img.len() - 1];
    assert_eq!(
        esp_checksum(cut, 24),
        Err(EspChecksumError::PayloadPastEnd { segment: 1, offset: 43 })
    );
}

#[test]
fn esp_payload_size_is_little_endian() {
    // A size of 0x0102 is 258 bytes: stored as 02 01 00 00.
    let mut img = vec![0xE9u8, 1, 0, 0, 0, 0, 0, 0, 0, 0, 0, 0, 0x02, 0x01, 0, 0];
    img.extend(std::iter::repeat(0x11u8).take(258));
    // 258 is even, so the payload bytes cancel out.
    assert_eq!(esp_checksum(&img, 8), Ok(0xEF));
    img.pop();
    assert_eq!(
        esp_checksum(&img, 8),
        Err(EspChecksumError::PayloadPastEnd { segment: 0, offset: 16 })
    );
}

#[test]
fn esp_no_segments_gives_seed() {
    let img = vec![0xE9u8, 0];
    assert_eq!(esp_checksum(&img, 1000), Ok(0xEF));
    let mut out = [0u8; 1];
    let args = vec![ParamArg::Slice { data: &img }, ParamArg::Int(8)];
    assert!(EspChecksum.execute(&args, &mut out).is_ok());
    assert_eq!(out[0], 0xEF);
}

#[test]
fn esp_data_after_the_declared_segments_is_refused() {
    let img = vec![0xE9u8, 1, 0, 0, 0, 0, 0, 0, 0, 0, 0, 0, 2, 0, 0, 0, 0xAA, 0xBB];
    let mut longer = img.clone();
    longer.extend_from_slice(&[1, 2, 3, 4, 5]);
    assert_eq!(esp_checksum(&img, 8), Ok(0xFE));
    assert_eq!(
        esp_checksum(&longer, 8),
        Err(EspChecksumError::SegmentCountMismatch { declared: 1, offset: 18 })
    );
    // The header declares no segment, but one complete segment follows.
    let img = vec![0xE9u8, 0, 0, 0, 0, 0, 0, 0, 0, 0, 0, 0, 1, 0, 0, 0, 0x55];
    let mut out = [0u8; 1];
    let args = vec![ParamArg::Slice { data: &img }, ParamArg::Int(8)];
    let res = EspChecksum.execute(&args, &mut out);
    assert_eq!(
        res.unwrap_err(),
        "std::esp_checksum: header declares 0 segments but the section continues at offset 8"
    );
    assert_eq!(out[0], 0);
}

#[test]
fn esp_writes_only_the_first_byte() {
    let img = vec![0xE9u8, 1, 0, 0, 0, 0, 0, 0, 0, 0, 0, 0, 2, 0, 0, 0, 0xAA, 0xBB];
    let mut out = [9u8; 3];
    let args = vec![ParamArg::Slice { data: &img }, ParamArg::Int(8)];
    assert!(EspChecksum.execute(&args, &mut out).is_ok());
    assert_eq!(out, [0xFE, 9, 9]);
}

#[test]
fn esp_load_addresses_are_not_read() {
    let a = vec![0xE9u8, 1, 0, 0, 0, 0, 0, 0, 0x00, 0x00, 0x10, 0x40, 2, 0, 0, 0, 0xAA, 0xBB];
    let mut b = a.clone();
    b[8] = 0xFF;
    b[9] = 0x12;
    b[10] = 0x34;
    b[11] = 0x56;
    assert_eq!(esp_checksum(&a, 8), esp_checksum(&b, 8));
    assert_eq!(esp_checksum(&b, 8), Ok(0xFE));
}

#[test]
fn esp_unread_bytes_do_not_matter() {
    let a = vec![0xE9u8, 1, 3, 4, 5, 6, 7, 8, 0x00, 0x00, 0x10, 0x40, 2, 0, 0, 0, 0xAA, 0xBB, 1, 2];
    let mut b = a.clone();
    for k in [2usize, 3, 4, 5, 6, 7, 8, 9, 10, 11, 18, 19] {
        b[k] = b[k].wrapping_add(0x5A);
    }
    assert_eq!(esp_checksum(&a, 8), esp_checksum(&b, 8));
    assert_eq!(
        esp_checksum(&a, 8),
        Err(EspChecksumError::SegmentCountMismatch { declared: 1, offset: 18 })
    );
    // A payload byte is read: changing it changes the checksum.
    let mut c = a[..18].to_vec();
    assert_eq!(esp_checksum(&c, 8), Ok(0xFE));
    c[16] = 0xAB;
    assert_eq!(esp_checksum(&c, 8), Ok(0xFF));
}
