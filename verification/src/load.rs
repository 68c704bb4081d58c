//! The pure half of file loading: binary and huge-line guards, encoding
//! choice, BOM stripping, decoding and line-ending normalisation.  Reading
//! bytes off the disk and capturing the identity is the caller's business.

use vstd::prelude::*;
use crate::bom::bom_of;
use crate::bom::detect_bom;
use crate::encoding::{DetectionConfig, Encoding, EncodingError, count_null, count_ctrl,
    heuristic_of, scan_null_ctrl, detect_encoding_heuristic_with_confidence};
use crate::eol::{EolType, eol_of, normalized, normalize_eol};
use crate::identity::{FileIdentity, FileIdentityConfig};
use crate::transcode::{decoded_content, decode_to_utf8};

verus! {

/// Files above this size open read-only, without their content.
pub const MAX_OPEN_SIZE: u64 = 100 * 1024 * 1024;

/// Configuration for file loading.
#[derive(Debug, Clone)]
pub struct FileLoadConfig {
    /// Chunk size for streaming reads.
    pub chunk_size: usize,
    /// Longest line still treated as text.
    pub max_line_length: usize,
    /// Whether to memory-map large read-only files.
    pub use_mmap: bool,
    /// Encoding detection configuration.
    pub encoding_config: DetectionConfig,
    /// File identity configuration.
    pub identity_config: FileIdentityConfig,
}

impl Default for FileLoadConfig {
    /// 8 MiB chunks and a 1 MiB line limit.
    fn default() -> (r: FileLoadConfig)
        ensures
            r.chunk_size == 8 * 1024 * 1024,
            r.max_line_length == 1024 * 1024,
            r.use_mmap == true,
            r.encoding_config.max_null_percent == 10,
            r.encoding_config.max_control_percent == 30,
            r.encoding_config.sample_size == 1024,
            r.identity_config.use_fast_hash == true,
            r.identity_config.hash_sample_size == 8192,
    {
        FileLoadConfig {
            chunk_size: 8 * 1024 * 1024,
            max_line_length: 1024 * 1024,
            use_mmap: true,
            encoding_config: Default::default(),
            identity_config: Default::default(),
        }
    }
}

/// Result of loading a file: content normalised to UTF-8 with LF endings,
/// beside everything a faithful save needs.
#[derive(Debug)]
pub struct FileLoadResult {
    /// The loaded content, as UTF-8 with LF line endings.
    pub content: Vec<u8>,
    /// The encoding the bytes on disk were in.
    pub original_encoding: Encoding,
    /// The line-ending convention the bytes on disk used.
    pub original_eol: EolType,
    /// Length of the BOM found at the front of the file, zero for none.
    pub bom_length: usize,
    /// The file identity captured before reading.
    pub identity: FileIdentity,
    /// Whether the buffer opened read-only (binary, huge, or over-long lines).
    pub read_only: bool,
    /// Warnings for the user.
    pub warnings: Vec<String>,
}

/// The binary guard of the loader: at least 512 sample bytes, of which
/// over 10% are null or over 30% are control bytes.
pub open spec fn binary_content(s: Seq<u8>) -> bool {
    s.len() >= 512 && (count_null(s) * 10 > s.len() || count_ctrl(s) * 10 > 3 * s.len())
}

/// Check if content appears to be binary based on null bytes and control
/// characters; samples shorter than 512 bytes are never called binary.
pub fn is_binary_content(sample: &[u8]) -> (r: bool)
    ensures
        r == binary_content(sample@),
{
    if sample.len() < 512 {
        return false;
    }
    let (nulls, ctrls) = scan_null_ctrl(sample);
    let n = sample.len();
    proof {
        assert((nulls as u128) * 10 <= u128::MAX);
    }
    (nulls as u128) * 10 > (n as u128) || (ctrls as u128) * 10 > 3 * (n as u128)
}

/// The length of the run of non-line-break bytes a sequence ends with.
pub open spec fn tail_run(s: Seq<u8>) -> nat
    decreases s.len(),
{
    if s.len() == 0 {
        0
    } else if s.last() == 10u8 || s.last() == 13u8 {
        0
    } else {
        1 + tail_run(s.drop_last())
    }
}

/// The longest run of non-line-break bytes anywhere in the sequence.
pub open spec fn max_run(s: Seq<u8>) -> nat
    decreases s.len(),
{
    if s.len() == 0 {
        0
    } else {
        vstd::math::max(max_run(s.drop_last()) as int, tail_run(s) as int) as nat
    }
}

proof fn lemma_max_run_mono(s: Seq<u8>, i: int)
    requires
        0 <= i <= s.len(),
    ensures
        max_run(s.take(i)) <= max_run(s),
    decreases s.len() - i,
{
    if i < s.len() {
        lemma_max_run_mono(s, i + 1);
        assert(s.take(i + 1).drop_last() =~= s.take(i));
    } else {
        assert(s.take(i) =~= s);
    }
}

/// Whether any single line of the sample exceeds the limit.
pub fn has_extremely_long_lines(sample: &[u8], max_line_length: usize) -> (r: bool)
    ensures
        r == (max_run(sample@) > max_line_length),
{
    let n = sample.len();
    let mut current: usize = 0;
    let mut best: usize = 0;
    let mut i: usize = 0;
    while i < n
        invariant
            n == sample@.len(),
            i <= n,
            current <= i,
            best <= i,
            current == tail_run(sample@.take(i as int)),
            max_run(sample@.take(i as int)) == vstd::math::max(best as int, current as int),
            best <= max_line_length,
        decreases n - i,
    {
        let ghost pre = sample@.take(i as int);
        let b = sample[i];
        proof {
            assert(sample@.take(i + 1 as int).drop_last() =~= pre);
            assert(sample@.take(i + 1 as int).last() == sample@[i as int]);
        }
        if b == 10 || b == 13 {
            if current > best {
                best = current;
            }
            if best > max_line_length {
                proof {
                    lemma_max_run_mono(sample@, i + 1);
                }
                return true;
            }
            current = 0;
        } else {
            current += 1;
            if current > max_line_length {
                proof {
                    lemma_max_run_mono(sample@, i + 1);
                }
                return true;
            }
        }
        i += 1;
    }
    proof {
        assert(sample@.take(n as int) =~= sample@);
    }
    if current > best {
        best = current;
    }
    best > max_line_length
}

/// The encoding the loader settles on: a BOM wins; otherwise the
/// heuristics decide; `None` means the heuristics called the bytes binary.
pub open spec fn chosen_encoding(sample: Seq<u8>, cfg: DetectionConfig) -> Option<Encoding> {
    if bom_of(sample).encoding != Encoding::Unknown {
        Some(bom_of(sample).encoding)
    } else {
        match heuristic_of(sample, cfg) {
            Some(res) => Some(res.encoding),
            None => None,
        }
    }
}

/// The detection sample: the first `sample_size` bytes of the raw file.
pub open spec fn raw_sample(raw: Seq<u8>, cfg: DetectionConfig) -> Seq<u8> {
    if raw.len() > cfg.sample_size {
        raw.take(cfg.sample_size as int)
    } else {
        raw
    }
}

/// Turn the raw bytes of a file into a load result: size, binary and
/// huge-line guards first (each opens the buffer read-only and empty),
/// then the encoding choice, BOM strip, decode and EOL normalisation.
/// Fails exactly when the detection or the decode finds bytes that are no
/// text in the chosen encoding.
#[verifier::rlimit(100)]
pub fn load_from_bytes(raw: &[u8], identity: FileIdentity, config: &FileLoadConfig) -> (r: Result<
    FileLoadResult,
    EncodingError,
>)
    ensures
        ({
            let sample = raw_sample(raw@, config.encoding_config);
            match r {
                Ok(res) => {
                    &&& res.identity == identity
                    &&& if identity.size > MAX_OPEN_SIZE {
                        res.read_only && res.content@.len() == 0 && res.original_encoding
                            == Encoding::Unknown && res.original_eol == EolType::Lf
                            && res.warnings@.len() == 1 && res.bom_length == 0
                    } else if sample.len() == 0 {
                        !res.read_only && res.content@.len() == 0 && res.original_encoding
                            == Encoding::Utf8 && res.original_eol == EolType::Lf
                            && res.warnings@.len() == 0 && res.bom_length == 0
                    } else if binary_content(sample) {
                        res.read_only && res.content@.len() == 0 && res.original_encoding
                            == Encoding::Unknown && res.original_eol == EolType::Lf
                            && res.warnings@.len() == 1 && res.bom_length == 0
                    } else if max_run(sample) > config.max_line_length {
                        res.read_only && res.content@.len() == 0 && res.original_encoding
                            == Encoding::Unknown && res.original_eol == EolType::Lf
                            && res.warnings@.len() == 1 && res.bom_length == 0
                    } else {
                        &&& chosen_encoding(sample, config.encoding_config) == Some(
                            res.original_encoding,
                        )
                        &&& res.bom_length == bom_of(sample).bom_length
                        &&& ({
                            let decoded = decoded_content(
                                raw@.skip(res.bom_length as int),
                                res.original_encoding,
                            );
                            &&& decoded is Some
                            &&& res.content@ == normalized(decoded.unwrap())
                            &&& res.original_eol == eol_of(decoded.unwrap())
                            &&& !res.read_only
                            &&& res.warnings@.len() == 0
                        })
                    }
                },
                Err(e) => {
                    &&& e == EncodingError::BinaryFile
                    &&& identity.size <= MAX_OPEN_SIZE
                    &&& sample.len() > 0
                    &&& !binary_content(sample)
                    &&& max_run(sample) <= config.max_line_length
                    &&& match chosen_encoding(sample, config.encoding_config) {
                        None => true,
                        Some(enc) => decoded_content(
                            raw@.skip(bom_of(sample).bom_length as int),
                            enc,
                        ) is None,
                    }
                },
            }
        }),
{
    if identity.size > MAX_OPEN_SIZE {
        return Ok(
            FileLoadResult {
                content: Vec::new(),
                original_encoding: Encoding::Unknown,
                original_eol: EolType::Lf,
                bom_length: 0,
                identity,
                read_only: true,
                warnings: vec!["File too large (>100MB), opened as read-only".to_string()],
            },
        );
    }
    let sample: &[u8] = if raw.len() > config.encoding_config.sample_size {
        vstd::slice::slice_subrange(raw, 0, config.encoding_config.sample_size)
    } else {
        raw
    };
    proof {
        assert(sample@ == raw_sample(raw@, config.encoding_config));
    }
    if sample.len() == 0 {
        return Ok(
            FileLoadResult {
                content: Vec::new(),
                original_encoding: Encoding::Utf8,
                original_eol: EolType::Lf,
                bom_length: 0,
                identity,
                read_only: false,
                warnings: Vec::new(),
            },
        );
    }
    if is_binary_content(sample) {
        return Ok(
            FileLoadResult {
                content: Vec::new(),
                original_encoding: Encoding::Unknown,
                original_eol: EolType::Lf,
                bom_length: 0,
                identity,
                read_only: true,
                warnings: vec!["Binary file detected, opened as read-only".to_string()],
            },
        );
    }
    if has_extremely_long_lines(sample, config.max_line_length) {
        return Ok(
            FileLoadResult {
                content: Vec::new(),
                original_encoding: Encoding::Unknown,
                original_eol: EolType::Lf,
                bom_length: 0,
                identity,
                read_only: true,
                warnings: vec!["Extremely long lines detected, opened as read-only".to_string()],
            },
        );
    }
    let bom_result = detect_bom(sample);
    let encoding: Encoding = if !matches!(bom_result.encoding, Encoding::Unknown) {
        bom_result.encoding
    } else {
        match detect_encoding_heuristic_with_confidence(sample, config.encoding_config) {
            Some(res) => res.encoding,
            None => {
                return Err(EncodingError::BinaryFile);
            },
        }
    };
    let body: &[u8] = vstd::slice::slice_subrange(raw, bom_result.bom_length, raw.len());
    let decoded = match decode_to_utf8(body, encoding) {
        Ok(d) => d,
        Err(e) => {
            return Err(e);
        },
    };
    let (content, original_eol) = normalize_eol(decoded.as_slice());
    Ok(
        FileLoadResult {
            content,
            original_encoding: encoding,
            original_eol,
            bom_length: bom_result.bom_length,
            identity,
            read_only: false,
            warnings: Vec::new(),
        },
    )
}

} // verus!
