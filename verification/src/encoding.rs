//! Heuristic text-encoding classification: binary rejection, UTF-16
//! parity patterns, strict UTF-8 validation, and the Latin family
//! fallback, each with a confidence grade.

use vstd::prelude::*;

verus! {

/// The text encoding of a file.
#[derive(Debug, Clone, Copy, PartialEq, Eq, Structural)]
pub enum Encoding {
    Utf8,
    Utf16Le,
    Utf16Be,
    Utf32Le,
    Utf32Be,
    Latin1,
    Windows1252,
    Latin9,
    Unknown,
}

/// Confidence grade of a detection.
#[derive(Debug, Clone, Copy, PartialEq, Eq, PartialOrd, Ord, Structural)]
pub enum DetectionConfidence {
    Unknown,
    Low,
    Medium,
    High,
}

/// A detected encoding with its confidence.
#[derive(Debug, Clone, Copy, PartialEq, Eq, Structural)]
pub struct EncodingDetectionResult {
    pub encoding: Encoding,
    pub confidence: DetectionConfidence,
}

/// Errors of encoding detection and of the file pipeline built on it.
#[derive(Debug, Clone, PartialEq, Eq)]
pub enum EncodingError {
    /// An I/O error, carrying the operating system's message.
    Io(String),
    /// The content looks binary: too many null or control bytes, or bytes
    /// that are no text in the declared encoding.
    BinaryFile,
    /// The file is too large to process.
    FileTooLarge,
    /// Valid text that the target single-byte encoding cannot carry.
    EncodingLoss,
}

/// Configuration for the detection heuristics.  The thresholds are
/// percentages: content is called binary when the null-byte share exceeds
/// `max_null_percent` or the control-byte share exceeds
/// `max_control_percent` of the sample.
#[derive(Debug, Clone, Copy)]
pub struct DetectionConfig {
    pub max_null_percent: u32,
    pub max_control_percent: u32,
    pub sample_size: usize,
}

impl Default for DetectionConfig {
    /// 10% nulls, 30% control bytes, a 1024-byte sample.
    fn default() -> (r: DetectionConfig)
        ensures
            r.max_null_percent == 10,
            r.max_control_percent == 30,
            r.sample_size == 1024,
    {
        DetectionConfig { max_null_percent: 10, max_control_percent: 30, sample_size: 1024 }
    }
}

/// A control byte is below 0x20 and not null, tab, LF or CR; null bytes
/// are counted on their own.
pub open spec fn is_ctrl(b: u8) -> bool {
    b != 0 && b < 32 && b != 9 && b != 10 && b != 13
}

/// Printable ASCII.
pub open spec fn is_print(b: u8) -> bool {
    32 <= b <= 126
}

/// A Latin-9-specific marker byte.
pub open spec fn is_latin9_mark(b: u8) -> bool {
    b == 0xA4 || b == 0xA6 || b == 0xA8 || b == 0xB4 || b == 0xB8 || b == 0xBC || b == 0xBD || b
        == 0xBE
}

pub open spec fn count_null(s: Seq<u8>) -> nat
    decreases s.len(),
{
    if s.len() == 0 {
        0
    } else {
        count_null(s.drop_last()) + if s.last() == 0u8 {
            1nat
        } else {
            0nat
        }
    }
}

pub open spec fn count_ctrl(s: Seq<u8>) -> nat
    decreases s.len(),
{
    if s.len() == 0 {
        0
    } else {
        count_ctrl(s.drop_last()) + if is_ctrl(s.last()) {
            1nat
        } else {
            0nat
        }
    }
}

pub open spec fn count_even_null(s: Seq<u8>) -> nat
    decreases s.len(),
{
    if s.len() == 0 {
        0
    } else {
        count_even_null(s.drop_last()) + if (s.len() - 1) % 2 == 0 && s.last() == 0u8 {
            1nat
        } else {
            0nat
        }
    }
}

pub open spec fn count_odd_null(s: Seq<u8>) -> nat
    decreases s.len(),
{
    if s.len() == 0 {
        0
    } else {
        count_odd_null(s.drop_last()) + if (s.len() - 1) % 2 == 1 && s.last() == 0u8 {
            1nat
        } else {
            0nat
        }
    }
}

pub open spec fn count_even_print(s: Seq<u8>) -> nat
    decreases s.len(),
{
    if s.len() == 0 {
        0
    } else {
        count_even_print(s.drop_last()) + if (s.len() - 1) % 2 == 0 && is_print(s.last()) {
            1nat
        } else {
            0nat
        }
    }
}

pub open spec fn count_odd_print(s: Seq<u8>) -> nat
    decreases s.len(),
{
    if s.len() == 0 {
        0
    } else {
        count_odd_print(s.drop_last()) + if (s.len() - 1) % 2 == 1 && is_print(s.last()) {
            1nat
        } else {
            0nat
        }
    }
}

pub open spec fn count_extended(s: Seq<u8>) -> nat
    decreases s.len(),
{
    if s.len() == 0 {
        0
    } else {
        count_extended(s.drop_last()) + if s.last() >= 0x80 {
            1nat
        } else {
            0nat
        }
    }
}

pub open spec fn count_c1(s: Seq<u8>) -> nat
    decreases s.len(),
{
    if s.len() == 0 {
        0
    } else {
        count_c1(s.drop_last()) + if 0x80 <= s.last() <= 0x9F {
            1nat
        } else {
            0nat
        }
    }
}

pub open spec fn count_latin9(s: Seq<u8>) -> nat
    decreases s.len(),
{
    if s.len() == 0 {
        0
    } else {
        count_latin9(s.drop_last()) + if is_latin9_mark(s.last()) {
            1nat
        } else {
            0nat
        }
    }
}

/// The sample the heuristics look at: the first `sample_size` bytes.
pub open spec fn sample_of(s: Seq<u8>, cfg: DetectionConfig) -> Seq<u8> {
    if s.len() > cfg.sample_size {
        s.take(cfg.sample_size as int)
    } else {
        s
    }
}

/// The sample is called binary when its null-byte or control-byte share
/// exceeds the configured percentage.
pub open spec fn is_binary_sample(s: Seq<u8>, cfg: DetectionConfig) -> bool {
    count_null(s) * 100 > s.len() * cfg.max_null_percent || count_ctrl(s) * 100 > s.len()
        * cfg.max_control_percent
}

/// The UTF-16 parity test: mostly-null even positions beside printable odd
/// positions suggest UTF-16LE, and symmetrically UTF-16BE.
pub open spec fn utf16_pattern_of(s: Seq<u8>) -> Option<Encoding> {
    if s.len() < 32 {
        None
    } else {
        let half = s.len() / 2;
        if count_even_null(s) * 100 >= 85 * half && count_odd_print(s) * 100 >= 40 * half {
            Some(Encoding::Utf16Le)
        } else if count_odd_null(s) * 100 >= 85 * half && count_even_print(s) * 100 >= 40 * half {
            Some(Encoding::Utf16Be)
        } else {
            None
        }
    }
}

/// Strict UTF-8 shape: 1- to 4-byte sequences with correct lead and
/// continuation bit patterns.
pub open spec fn utf8_valid(s: Seq<u8>) -> bool
    decreases s.len(),
{
    if s.len() == 0 {
        true
    } else if s[0] < 0x80 {
        utf8_valid(s.skip(1))
    } else if s[0] & 0xE0 == 0xC0 {
        s.len() >= 2 && s[1] & 0xC0 == 0x80 && utf8_valid(s.skip(2))
    } else if s[0] & 0xF0 == 0xE0 {
        s.len() >= 3 && s[1] & 0xC0 == 0x80 && s[2] & 0xC0 == 0x80 && utf8_valid(s.skip(3))
    } else if s[0] & 0xF8 == 0xF0 {
        s.len() >= 4 && s[1] & 0xC0 == 0x80 && s[2] & 0xC0 == 0x80 && s[3] & 0xC0 == 0x80
            && utf8_valid(s.skip(4))
    } else {
        false
    }
}

/// The Latin-family fallback: enough extended bytes, then C1 bytes pick
/// Windows-1252, Latin-9 markers pick Latin-9, and Latin-1 is the rest.
pub open spec fn latin_of(s: Seq<u8>) -> Option<EncodingDetectionResult> {
    if s.len() < 10 {
        None
    } else if count_extended(s) * 100 < 8 * s.len() {
        None
    } else if count_c1(s) > 2 {
        Some(
            EncodingDetectionResult {
                encoding: Encoding::Windows1252,
                confidence: DetectionConfidence::Medium,
            },
        )
    } else if count_latin9(s) > count_extended(s) / 10 {
        Some(
            EncodingDetectionResult {
                encoding: Encoding::Latin9,
                confidence: DetectionConfidence::Low,
            },
        )
    } else {
        Some(
            EncodingDetectionResult {
                encoding: Encoding::Latin1,
                confidence: DetectionConfidence::Low,
            },
        )
    }
}

/// The whole heuristic, with confidence; `None` means binary content.
pub open spec fn heuristic_of(s: Seq<u8>, cfg: DetectionConfig) -> Option<EncodingDetectionResult> {
    let sample = sample_of(s, cfg);
    if sample.len() == 0 {
        Some(
            EncodingDetectionResult {
                encoding: Encoding::Utf8,
                confidence: DetectionConfidence::Unknown,
            },
        )
    } else if is_binary_sample(sample, cfg) {
        None
    } else if sample.len() >= 32 && utf16_pattern_of(sample) is Some {
        Some(
            EncodingDetectionResult {
                encoding: utf16_pattern_of(sample).unwrap(),
                confidence: DetectionConfidence::Medium,
            },
        )
    } else if utf8_valid(sample) {
        Some(
            EncodingDetectionResult {
                encoding: Encoding::Utf8,
                confidence: DetectionConfidence::High,
            },
        )
    } else if latin_of(sample) is Some {
        latin_of(sample)
    } else {
        Some(
            EncodingDetectionResult {
                encoding: Encoding::Utf8,
                confidence: DetectionConfidence::Unknown,
            },
        )
    }
}

/// Count the nulls and control bytes of a sample in one pass.
pub(crate) fn scan_null_ctrl(sample: &[u8]) -> (r: (usize, usize))
    ensures
        r.0 == count_null(sample@),
        r.1 == count_ctrl(sample@),
{
    let n = sample.len();
    let mut nulls: usize = 0;
    let mut ctrls: usize = 0;
    let mut i: usize = 0;
    while i < n
        invariant
            n == sample@.len(),
            i <= n,
            nulls <= i,
            ctrls <= i,
            nulls == count_null(sample@.take(i as int)),
            ctrls == count_ctrl(sample@.take(i as int)),
        decreases n - i,
    {
        let ghost pre = sample@.take(i as int);
        let b = sample[i];
        proof {
            assert(sample@.take(i + 1 as int).drop_last() =~= pre);
            assert(sample@.take(i + 1 as int).last() == sample@[i as int]);
        }
        if b == 0 {
            nulls += 1;
        } else if b < 32 && b != 9 && b != 10 && b != 13 {
            ctrls += 1;
        }
        i += 1;
    }
    proof {
        assert(sample@.take(n as int) =~= sample@);
    }
    (nulls, ctrls)
}

/// Detect UTF-16 patterns based on characteristic null/data positions.
pub fn detect_utf16_pattern(bytes: &[u8]) -> (r: Option<Encoding>)
    ensures
        r == utf16_pattern_of(bytes@),
{
    let n = bytes.len();
    if n < 32 {
        return None;
    }
    let mut even_null: usize = 0;
    let mut odd_null: usize = 0;
    let mut even_ascii: usize = 0;
    let mut odd_ascii: usize = 0;
    let mut i: usize = 0;
    while i < n
        invariant
            n == bytes@.len(),
            i <= n,
            even_null <= i,
            odd_null <= i,
            even_ascii <= i,
            odd_ascii <= i,
            even_null == count_even_null(bytes@.take(i as int)),
            odd_null == count_odd_null(bytes@.take(i as int)),
            even_ascii == count_even_print(bytes@.take(i as int)),
            odd_ascii == count_odd_print(bytes@.take(i as int)),
        decreases n - i,
    {
        let ghost pre = bytes@.take(i as int);
        let b = bytes[i];
        proof {
            assert(bytes@.take(i + 1 as int).drop_last() =~= pre);
            assert(bytes@.take(i + 1 as int).last() == bytes@[i as int]);
        }
        if i % 2 == 0 {
            if b == 0 {
                even_null += 1;
            } else if b >= 32 && b <= 126 {
                even_ascii += 1;
            }
        } else {
            if b == 0 {
                odd_null += 1;
            } else if b >= 32 && b <= 126 {
                odd_ascii += 1;
            }
        }
        i += 1;
    }
    proof {
        assert(bytes@.take(n as int) =~= bytes@);
    }
    let half = n / 2;
    if (even_null as u128) * 100 >= 85 * (half as u128) && (odd_ascii as u128) * 100 >= 40 * (
    half as u128) {
        Some(Encoding::Utf16Le)
    } else if (odd_null as u128) * 100 >= 85 * (half as u128) && (even_ascii as u128) * 100 >= 40
        * (half as u128) {
        Some(Encoding::Utf16Be)
    } else {
        None
    }
}

/// Check that a byte slice walks as valid UTF-8 bit patterns.
pub fn is_valid_utf8(bytes: &[u8]) -> (r: bool)
    ensures
        r == utf8_valid(bytes@),
{
    let n = bytes.len();
    let mut i: usize = 0;
    proof {
        assert(bytes@.skip(0) =~= bytes@);
    }
    while i < n
        invariant
            n == bytes@.len(),
            i <= n,
            utf8_valid(bytes@) == utf8_valid(bytes@.skip(i as int)),
        decreases n - i,
    {
        let ghost rest = bytes@.skip(i as int);
        let b = bytes[i];
        proof {
            assert(rest[0] == bytes@[i as int]);
            assert(rest.len() == n - i);
        }
        if b < 0x80 {
            proof {
                assert(rest.skip(1) =~= bytes@.skip(i + 1));
            }
            i += 1;
        } else if b & 0xE0 == 0xC0 {
            if n - i < 2 || bytes[i + 1] & 0xC0 != 0x80 {
                proof {
                    if i + 1 < n {
                        assert(rest[1] == bytes@[i + 1]);
                    }
                }
                return false;
            }
            proof {
                assert(rest[1] == bytes@[i + 1]);
                assert(rest.skip(2) =~= bytes@.skip(i + 2));
            }
            i += 2;
        } else if b & 0xF0 == 0xE0 {
            if n - i < 3 || bytes[i + 1] & 0xC0 != 0x80 || bytes[i + 2] & 0xC0 != 0x80 {
                proof {
                    if i + 1 < n {
                        assert(rest[1] == bytes@[i + 1]);
                    }
                    if i + 2 < n {
                        assert(rest[2] == bytes@[i + 2]);
                    }
                }
                return false;
            }
            proof {
                assert(rest[1] == bytes@[i + 1]);
                assert(rest[2] == bytes@[i + 2]);
                assert(rest.skip(3) =~= bytes@.skip(i + 3));
            }
            i += 3;
        } else if b & 0xF8 == 0xF0 {
            if n - i < 4 || bytes[i + 1] & 0xC0 != 0x80 || bytes[i + 2] & 0xC0 != 0x80 || bytes[i
                + 3] & 0xC0 != 0x80 {
                proof {
                    if i + 1 < n {
                        assert(rest[1] == bytes@[i + 1]);
                    }
                    if i + 2 < n {
                        assert(rest[2] == bytes@[i + 2]);
                    }
                    if i + 3 < n {
                        assert(rest[3] == bytes@[i + 3]);
                    }
                }
                return false;
            }
            proof {
                assert(rest[1] == bytes@[i + 1]);
                assert(rest[2] == bytes@[i + 2]);
                assert(rest[3] == bytes@[i + 3]);
                assert(rest.skip(4) =~= bytes@.skip(i + 4));
            }
            i += 4;
        } else {
            return false;
        }
    }
    proof {
        assert(bytes@.skip(n as int) =~= Seq::<u8>::empty());
    }
    true
}

/// Detect Latin encodings with conservative confidence scoring.
pub fn detect_latin_encoding(bytes: &[u8]) -> (r: Option<EncodingDetectionResult>)
    ensures
        r == latin_of(bytes@),
{
    let n = bytes.len();
    if n < 10 {
        return None;
    }
    let mut extended: usize = 0;
    let mut win1252_specific: usize = 0;
    let mut latin9_specific: usize = 0;
    let mut i: usize = 0;
    while i < n
        invariant
            n == bytes@.len(),
            i <= n,
            extended <= i,
            win1252_specific <= i,
            latin9_specific <= i,
            extended == count_extended(bytes@.take(i as int)),
            win1252_specific == count_c1(bytes@.take(i as int)),
            latin9_specific == count_latin9(bytes@.take(i as int)),
        decreases n - i,
    {
        let ghost pre = bytes@.take(i as int);
        let b = bytes[i];
        proof {
            assert(bytes@.take(i + 1 as int).drop_last() =~= pre);
            assert(bytes@.take(i + 1 as int).last() == bytes@[i as int]);
        }
        if b >= 0x80 {
            extended += 1;
        }
        if b >= 0x80 && b <= 0x9F {
            win1252_specific += 1;
        }
        if b == 0xA4 || b == 0xA6 || b == 0xA8 || b == 0xB4 || b == 0xB8 || b == 0xBC || b == 0xBD
            || b == 0xBE {
            latin9_specific += 1;
        }
        i += 1;
    }
    proof {
        assert(bytes@.take(n as int) =~= bytes@);
    }
    if (extended as u128) * 100 < 8 * (n as u128) {
        return None;
    }
    if win1252_specific > 2 {
        return Some(
            EncodingDetectionResult {
                encoding: Encoding::Windows1252,
                confidence: DetectionConfidence::Medium,
            },
        );
    }
    if latin9_specific > extended / 10 {
        return Some(
            EncodingDetectionResult {
                encoding: Encoding::Latin9,
                confidence: DetectionConfidence::Low,
            },
        );
    }
    Some(
        EncodingDetectionResult {
            encoding: Encoding::Latin1,
            confidence: DetectionConfidence::Low,
        },
    )
}

/// Heuristic detection with confidence; `None` means binary content.
pub fn detect_encoding_heuristic_with_confidence(bytes: &[u8], config: DetectionConfig) -> (r:
    Option<EncodingDetectionResult>)
    ensures
        r == heuristic_of(bytes@, config),
{
    let sample: &[u8] = if bytes.len() > config.sample_size {
        vstd::slice::slice_subrange(bytes, 0, config.sample_size)
    } else {
        bytes
    };
    proof {
        assert(sample@ == sample_of(bytes@, config));
    }
    if sample.len() == 0 {
        return Some(
            EncodingDetectionResult {
                encoding: Encoding::Utf8,
                confidence: DetectionConfidence::Unknown,
            },
        );
    }
    let (nulls, ctrls) = scan_null_ctrl(sample);
    let n = sample.len();
    proof {
        assert((n as u128) * (config.max_null_percent as u128) <= u128::MAX) by (nonlinear_arith)
            requires
                (n as u128) <= 0xFFFF_FFFF_FFFF_FFFFu128,
                (config.max_null_percent as u128) <= 0xFFFF_FFFFu128,
        ;
        assert((n as u128) * (config.max_control_percent as u128) <= u128::MAX) by (nonlinear_arith)
            requires
                (n as u128) <= 0xFFFF_FFFF_FFFF_FFFFu128,
                (config.max_control_percent as u128) <= 0xFFFF_FFFFu128,
        ;
    }
    if (nulls as u128) * 100 > (n as u128) * (config.max_null_percent as u128) || (ctrls as u128)
        * 100 > (n as u128) * (config.max_control_percent as u128) {
        return None;
    }
    if n >= 32 {
        let p = detect_utf16_pattern(sample);
        match p {
            Some(enc) => {
                return Some(
                    EncodingDetectionResult { encoding: enc, confidence: DetectionConfidence::Medium },
                );
            },
            None => {},
        }
    }
    if is_valid_utf8(sample) {
        return Some(
            EncodingDetectionResult {
                encoding: Encoding::Utf8,
                confidence: DetectionConfidence::High,
            },
        );
    }
    let lat = detect_latin_encoding(sample);
    match lat {
        Some(result) => Some(result),
        None => Some(
            EncodingDetectionResult {
                encoding: Encoding::Utf8,
                confidence: DetectionConfidence::Unknown,
            },
        ),
    }
}

/// Heuristic detection; binary content is refused.
pub fn detect_encoding_heuristic(bytes: &[u8], config: DetectionConfig) -> (r: Result<
    Encoding,
    EncodingError,
>)
    ensures
        match r {
            Ok(e) => heuristic_of(bytes@, config) == Some(
                EncodingDetectionResult { encoding: e, ..heuristic_of(bytes@, config).unwrap() },
            ),
            Err(e) => e == EncodingError::BinaryFile && heuristic_of(bytes@, config) is None,
        },
{
    let r = detect_encoding_heuristic_with_confidence(bytes, config);
    match r {
        Some(result) => Ok(result.encoding),
        None => Err(EncodingError::BinaryFile),
    }
}

} // verus!
