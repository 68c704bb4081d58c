use niv::eol::{detect_eol, normalize_eol, restore_eol, EolType};

#[test]
fn test_detect_eol_lf() {
    let content = b"line1\nline2\nline3";
    assert_eq!(detect_eol(content), EolType::Lf);
}

#[test]
fn test_detect_eol_crlf() {
    let content = b"line1\r\nline2\r\nline3";
    assert_eq!(detect_eol(content), EolType::Crlf);
}

#[test]
fn test_detect_eol_cr() {
    let content = b"line1\rline2\rline3";
    assert_eq!(detect_eol(content), EolType::Cr);
}

#[test]
fn test_detect_eol_mixed() {
    let content = b"line1\nline2\r\nline3\r";
    assert_eq!(detect_eol(content), EolType::Crlf); // CRLF is most common in this case
}

#[test]
fn test_normalize_eol_lf_unchanged() {
    let content = b"line1\nline2\nline3";
    let (normalized, original) = normalize_eol(content);
    assert_eq!(normalized.as_slice(), content);
    assert_eq!(original, EolType::Lf);
}

#[test]
fn test_normalize_eol_crlf() {
    let content = b"line1\r\nline2\r\nline3";
    let (normalized, original) = normalize_eol(content);
    assert_eq!(normalized.as_slice(), b"line1\nline2\nline3");
    assert_eq!(original, EolType::Crlf);
}

#[test]
fn test_normalize_eol_cr() {
    let content = b"line1\rline2\rline3";
    let (normalized, original) = normalize_eol(content);
    assert_eq!(normalized.as_slice(), b"line1\nline2\nline3");
    assert_eq!(original, EolType::Cr);
}

#[test]
fn test_restore_eol_crlf() {
    let normalized = b"line1\nline2\nline3";
    let restored = restore_eol(normalized, EolType::Crlf);
    assert_eq!(restored.as_slice(), b"line1\r\nline2\r\nline3");
}

#[test]
fn test_restore_eol_cr() {
    let normalized = b"line1\nline2\nline3";
    let restored = restore_eol(normalized, EolType::Cr);
    assert_eq!(restored.as_slice(), b"line1\rline2\rline3");
}

#[test]
fn test_restore_eol_lf_unchanged() {
    let normalized = b"line1\nline2\nline3";
    let restored = restore_eol(normalized, EolType::Lf);
    assert_eq!(restored.as_slice(), normalized);
}

#[test]
fn eol_round_trip_crlf() {
    let content = b"alpha\r\nbeta\r\ngamma\r\n";
    let (normalized, eol) = normalize_eol(content);
    assert_eq!(eol, EolType::Crlf);
    let restored = restore_eol(&normalized, eol);
    assert_eq!(restored.as_slice(), content);
}

#[test]
fn eol_round_trip_cr_only_newline() {
    // a file whose only line break is a lone CR
    let content = b"one line\rrest";
    let (normalized, eol) = normalize_eol(content);
    assert_eq!(eol, EolType::Cr);
    assert_eq!(normalized.as_slice(), b"one line\nrest");
    let restored = restore_eol(&normalized, eol);
    assert_eq!(restored.as_slice(), content);
}
