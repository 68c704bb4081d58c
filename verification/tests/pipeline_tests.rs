use niv::bom::detect_bom;
use niv::encoding::{DetectionConfidence, DetectionConfig, Encoding, EncodingError,
    detect_encoding_heuristic, detect_encoding_heuristic_with_confidence, detect_latin_encoding,
    detect_utf16_pattern, is_valid_utf8};
use niv::eol::EolType;
use niv::identity::FileIdentity;
use niv::load::{FileLoadConfig, has_extremely_long_lines, is_binary_content, load_from_bytes};
use niv::save::{SaveContext, get_temp_path, prepare_content_for_save};
use niv::transcode::{decode_latin, decode_utf16le, encode_latin, encode_utf16le,
    transcode_to_encoding};

fn dummy_identity(size: u64) -> FileIdentity {
    FileIdentity { device_id: 1, inode: 7, size, mtime: 1000, content_hash: None }
}

#[test]
fn test_is_binary_content() {
    let ascii_content = b"Hello, world! This is text.";
    assert!(!is_binary_content(ascii_content));

    let binary_content = vec![0u8; 600]; // >10% null bytes
    assert!(is_binary_content(&binary_content));

    let control_content = (0..600).map(|i| (i % 32) as u8).collect::<Vec<_>>();
    assert!(is_binary_content(&control_content));
}

#[test]
fn test_has_extremely_long_lines() {
    let normal_lines = b"Short line\nAnother short line\n";
    assert!(!has_extremely_long_lines(normal_lines, 1000));

    let long_line = vec![b'A'; 2000];
    assert!(has_extremely_long_lines(&long_line, 1000));
}

#[test]
fn test_decode_latin1() {
    let latin1_bytes = &[0x48, 0x65, 0x6C, 0x6C, 0x6F, 0xA9, 0xAE]; // "Hello(c)(r)"
    let decoded = decode_latin(latin1_bytes, Encoding::Latin1);
    assert_eq!(decoded, "Hello\u{A9}\u{AE}".as_bytes());
}

#[test]
fn test_transcode_to_utf16le() {
    let content = "Hello! \u{1F30D}";
    let transcoded = transcode_to_encoding(content.as_bytes(), Encoding::Utf16Le).unwrap();

    // Should be an even number of bytes (UTF-16), without a BOM
    assert_eq!(transcoded.len() % 2, 0);
    assert_eq!(&transcoded[0..2], &[0x48, 0x00]);
}

#[test]
fn test_encode_latin1() {
    let content = "Hello, \u{A9}\u{AE}";
    let encoded = encode_latin(content.as_bytes(), Encoding::Latin1).unwrap();

    assert_eq!(encoded.len(), content.chars().count());
    assert_eq!(encoded[7], 0xA9);
    assert_eq!(encoded[8], 0xAE);
}

#[test]
fn test_get_temp_path() {
    let temp = get_temp_path("/path/to/file.txt", ".tmp");
    assert_eq!(temp, "/path/to/file.txt.tmp");
}

#[test]
fn bom_detection_table() {
    assert_eq!(detect_bom(&[0xEF, 0xBB, 0xBF, b'H', b'i']).encoding, Encoding::Utf8);
    assert_eq!(detect_bom(&[0xEF, 0xBB, 0xBF, b'H', b'i']).bom_length, 3);
    assert_eq!(detect_bom(&[0xFF, 0xFE, 0x41, 0x00]).encoding, Encoding::Utf16Le);
    assert_eq!(detect_bom(&[0xFE, 0xFF, 0x00, 0x41]).encoding, Encoding::Utf16Be);
    assert_eq!(detect_bom(&[0xFF, 0xFE, 0x00, 0x00]).encoding, Encoding::Utf32Le);
    assert_eq!(detect_bom(&[0x00, 0x00, 0xFE, 0xFF]).encoding, Encoding::Utf32Be);
    assert_eq!(detect_bom(b"plain").encoding, Encoding::Unknown);
    assert_eq!(detect_bom(b"p").bom_length, 0);
}

#[test]
fn heuristics_classify_utf16_and_latin() {
    // null bytes on even positions, printable on odd: the UTF-16LE pattern
    let mut utf16le = Vec::new();
    for _ in 0..32 {
        utf16le.push(0u8);
        utf16le.push(b'A');
    }
    assert_eq!(detect_utf16_pattern(&utf16le), Some(Encoding::Utf16Le));

    // the mirrored parity is the UTF-16BE pattern
    let mut utf16be = Vec::new();
    for _ in 0..32 {
        utf16be.push(b'A');
        utf16be.push(0u8);
    }
    assert_eq!(detect_utf16_pattern(&utf16be), Some(Encoding::Utf16Be));

    assert!(is_valid_utf8("caf\u{E9}".as_bytes()));
    assert!(!is_valid_utf8(&[0xC3, 0x28]));

    // lots of 0x80..0x9F bytes pick Windows-1252
    let mut win = b"text ".to_vec();
    win.extend_from_slice(&[0x93, 0x94, 0x96, 0x97, 0x85]);
    let d = detect_latin_encoding(&win).unwrap();
    assert_eq!(d.encoding, Encoding::Windows1252);
    assert_eq!(d.confidence, DetectionConfidence::Medium);

    // plain accented bytes fall back to Latin-1
    let mut lat = b"abcd ".to_vec();
    lat.extend_from_slice(&[0xE9, 0xE8, 0xE7, 0xF4, 0xEE]);
    let d = detect_latin_encoding(&lat).unwrap();
    assert_eq!(d.encoding, Encoding::Latin1);
    assert_eq!(d.confidence, DetectionConfidence::Low);

    let cfg: DetectionConfig = Default::default();
    let r = detect_encoding_heuristic_with_confidence(b"hello world, plain text", cfg).unwrap();
    assert_eq!(r.encoding, Encoding::Utf8);
    assert_eq!(r.confidence, DetectionConfidence::High);

    // binary content is refused
    let zeros = vec![0u8; 600];
    assert_eq!(detect_encoding_heuristic(&zeros, cfg), Err(EncodingError::BinaryFile));
}

#[test]
fn load_utf8_bytes() {
    let raw = b"Hello, UTF-8!\nSecond line";
    let cfg: FileLoadConfig = Default::default();
    let result = load_from_bytes(raw, dummy_identity(raw.len() as u64), &cfg).unwrap();
    assert_eq!(result.content, raw.to_vec());
    assert_eq!(result.original_encoding, Encoding::Utf8);
    assert_eq!(result.original_eol, EolType::Lf);
    assert!(!result.read_only);
    assert_eq!(result.bom_length, 0);
}

#[test]
fn load_save_round_trip_with_bom() {
    // a UTF-8 BOM followed by "Hi": load reports the encoding and the BOM,
    // and an edit-free save writes back the very same bytes
    let mut raw = vec![0xEF, 0xBB, 0xBF];
    raw.extend_from_slice(b"Hi");
    let cfg: FileLoadConfig = Default::default();
    let result = load_from_bytes(&raw, dummy_identity(raw.len() as u64), &cfg).unwrap();
    assert_eq!(result.content, b"Hi".to_vec());
    assert_eq!(result.original_encoding, Encoding::Utf8);
    assert_eq!(result.bom_length, 3);

    let ctx = SaveContext::from_load_result(&result);
    let saved = prepare_content_for_save(&result.content, &ctx).unwrap();
    assert_eq!(saved, raw);
}

#[test]
fn load_save_round_trip_crlf() {
    // "L1\r\nL2\r\nL3": loads as CRLF with LF content, saves byte-identically
    let raw = b"L1\r\nL2\r\nL3";
    let cfg: FileLoadConfig = Default::default();
    let result = load_from_bytes(raw, dummy_identity(raw.len() as u64), &cfg).unwrap();
    assert_eq!(result.content, b"L1\nL2\nL3".to_vec());
    assert_eq!(result.original_eol, EolType::Crlf);

    let ctx = SaveContext::from_load_result(&result);
    let saved = prepare_content_for_save(&result.content, &ctx).unwrap();
    assert_eq!(saved, raw.to_vec());
}

#[test]
fn load_refuses_binary_as_read_only() {
    // 600 zero bytes: read-only, empty content, one warning
    let raw = vec![0u8; 600];
    let cfg: FileLoadConfig = Default::default();
    let result = load_from_bytes(&raw, dummy_identity(600), &cfg).unwrap();
    assert!(result.read_only);
    assert!(result.content.is_empty());
    assert_eq!(result.warnings.len(), 1);
    assert!(result.warnings[0].contains("Binary file"));
}

#[test]
fn load_marks_huge_files_read_only() {
    let raw = b"small sample";
    let cfg: FileLoadConfig = Default::default();
    let big = 200 * 1024 * 1024u64;
    let result = load_from_bytes(raw, dummy_identity(big), &cfg).unwrap();
    assert!(result.read_only);
    assert!(result.content.is_empty());
    assert_eq!(result.warnings.len(), 1);
}

#[test]
fn load_save_round_trip_utf16le() {
    // "Hi\n" as UTF-16LE with BOM
    let raw: Vec<u8> = vec![0xFF, 0xFE, 0x48, 0x00, 0x69, 0x00, 0x0A, 0x00];
    let cfg: FileLoadConfig = Default::default();
    let result = load_from_bytes(&raw, dummy_identity(raw.len() as u64), &cfg).unwrap();
    assert_eq!(result.original_encoding, Encoding::Utf16Le);
    assert_eq!(result.bom_length, 2);
    assert_eq!(result.content, b"Hi\n".to_vec());

    let ctx = SaveContext::from_load_result(&result);
    let saved = prepare_content_for_save(&result.content, &ctx).unwrap();
    assert_eq!(saved, raw);
}

#[test]
fn utf16_decode_rejects_lone_surrogate() {
    // a high surrogate without its partner
    let raw: Vec<u8> = vec![0x00, 0xD8, 0x41, 0x00];
    assert_eq!(decode_utf16le(&raw), Err(EncodingError::BinaryFile));
    let odd: Vec<u8> = vec![0x41];
    assert_eq!(decode_utf16le(&odd), Err(EncodingError::BinaryFile));
}

#[test]
fn utf16_encode_decode_round_trip_supplementary() {
    let content = "a\u{1F30D}b";
    let enc = encode_utf16le(content.as_bytes()).unwrap();
    let dec = decode_utf16le(&enc).unwrap();
    assert_eq!(dec, content.as_bytes());
}

#[test]
fn encode_latin_reports_unrepresentable() {
    let content = "euro: \u{20AC}";
    assert!(encode_latin(content.as_bytes(), Encoding::Latin1).is_err());
    let w = encode_latin(content.as_bytes(), Encoding::Windows1252).unwrap();
    assert_eq!(*w.last().unwrap(), 0x80);
    let l9 = encode_latin(content.as_bytes(), Encoding::Latin9).unwrap();
    assert_eq!(*l9.last().unwrap(), 0xA4);
}

#[test]
fn latin_decode_encode_round_trip() {
    let bytes: Vec<u8> = (1u8..=255).collect();
    for enc in [Encoding::Latin1, Encoding::Latin9, Encoding::Windows1252] {
        let utf8 = decode_latin(&bytes, enc);
        let back = encode_latin(&utf8, enc).unwrap();
        assert_eq!(back, bytes, "round trip failed for {:?}", enc);
    }
}
