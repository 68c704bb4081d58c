//! The pure half of file saving: restoring the original line endings,
//! transcoding back to the original encoding and re-attaching the BOM.
//! The atomic temp-file write itself is the caller's business.

use vstd::prelude::*;
use crate::bom::{BomDetectionResult, bom_bytes_of, get_bom_bytes};
use crate::encoding::{Encoding, EncodingError};
use crate::eol::{EolType, restored, restore_eol};
use crate::identity::FileIdentity;
use crate::load::FileLoadResult;
use crate::transcode::{encode_error_kind, transcoded, transcode_to_encoding};

verus! {

/// `String::push_str` appends the other string's characters; vstd gives
/// the method no specification of its own.
pub assume_specification[ String::push_str ](s: &mut String, other: &str)
    ensures
        final(s)@ == old(s)@ + other@,
;

/// Configuration for file saving.
#[derive(Debug, Clone)]
pub struct FileSaveConfig {
    /// Whether to copy the original's permission bits over the new file.
    pub preserve_permissions: bool,
    /// Whether to write via a sibling temp file and rename.
    pub atomic_writes: bool,
    /// Suffix of the sibling temp file.
    pub temp_suffix: String,
    /// Buffer size for streaming writes.
    pub buffer_size: usize,
}

impl Default for FileSaveConfig {
    /// Atomic writes through a `.tmp` sibling, preserving permissions.
    fn default() -> (r: FileSaveConfig)
        ensures
            r.preserve_permissions == true,
            r.atomic_writes == true,
            r.temp_suffix@ == ".tmp"@,
            r.buffer_size == 64 * 1024,
    {
        FileSaveConfig {
            preserve_permissions: true,
            atomic_writes: true,
            temp_suffix: ".tmp".to_string(),
            buffer_size: 64 * 1024,
        }
    }
}

/// Result of a save: where it went, how much, and whether the atomic path
/// was taken.
#[derive(Debug)]
pub struct FileSaveResult {
    /// Final path the file was saved at.
    pub path: String,
    /// Number of bytes written.
    pub bytes_written: u64,
    /// Whether the write went through the temp-and-rename path.
    pub atomic_write: bool,
    /// Warnings encountered during the save.
    pub warnings: Vec<String>,
}

/// Everything a faithful save needs, captured at load time: the original
/// encoding, line endings, BOM and identity.
#[derive(Debug, Clone)]
pub struct SaveContext {
    /// Encoding the file arrived in.
    pub original_encoding: Encoding,
    /// Line-ending convention the file arrived with.
    pub original_eol: EolType,
    /// The BOM the file arrived with, if any.
    pub original_bom: BomDetectionResult,
    /// Identity of the file at load time.
    pub original_identity: FileIdentity,
}

impl SaveContext {
    /// A context for a fresh, never-loaded buffer: UTF-8, LF, no BOM, and
    /// a placeholder identity.
    pub fn new() -> (r: SaveContext)
        ensures
            r.original_encoding == Encoding::Utf8,
            r.original_eol == EolType::Lf,
            r.original_bom.encoding == Encoding::Unknown,
            r.original_bom.bom_length == 0,
    {
        SaveContext {
            original_encoding: Encoding::Utf8,
            original_eol: EolType::Lf,
            original_bom: BomDetectionResult { encoding: Encoding::Unknown, bom_length: 0 },
            original_identity: FileIdentity {
                device_id: 0,
                inode: 0,
                size: 0,
                mtime: 0,
                content_hash: None,
            },
        }
    }

    /// The context a load result implies: same encoding, endings, BOM
    /// length and identity.
    pub fn from_load_result(result: &FileLoadResult) -> (r: SaveContext)
        ensures
            r.original_encoding == result.original_encoding,
            r.original_eol == result.original_eol,
            r.original_bom.encoding == result.original_encoding,
            r.original_bom.bom_length == result.bom_length,
            r.original_identity == result.identity,
    {
        SaveContext {
            original_encoding: result.original_encoding,
            original_eol: result.original_eol,
            original_bom: BomDetectionResult {
                encoding: result.original_encoding,
                bom_length: result.bom_length,
            },
            original_identity: result.identity.clone(),
        }
    }
}

/// The bytes a save writes to disk for the given content and context:
/// line endings restored, transcoded to the original encoding, and the
/// original BOM back in front; nothing when the content cannot be
/// represented there.
pub open spec fn saved_bytes(content: Seq<u8>, ctx: SaveContext) -> Option<Seq<u8>> {
    let with_eol = restored(content, ctx.original_eol);
    match transcoded(with_eol, ctx.original_encoding) {
        None => None,
        Some(t) => Some(
            if ctx.original_bom.bom_length > 0 {
                bom_bytes_of(ctx.original_encoding) + t
            } else {
                t
            },
        ),
    }
}

/// Prepare content for saving: restore the line endings, transcode to the
/// original encoding, and prepend the original BOM.  Fails exactly when
/// the transcode does: ill-formed bytes (or an unknown target) count as
/// binary content, and text the original single-byte encoding cannot
/// carry is an encoding loss.  A UTF-8 target copies the content through
/// unexamined.
pub fn prepare_content_for_save(content: &[u8], context: &SaveContext) -> (r: Result<
    Vec<u8>,
    EncodingError,
>)
    ensures
        match r {
            Ok(v) => saved_bytes(content@, *context) == Some(v@),
            Err(e) => {
                &&& saved_bytes(content@, *context) is None
                &&& e == encode_error_kind(
                    crate::eol::restored(content@, context.original_eol),
                    context.original_encoding,
                )
            },
        },
{
    let with_eol = restore_eol(content, context.original_eol);
    let transcoded_bytes = match transcode_to_encoding(with_eol.as_slice(), context.original_encoding) {
        Ok(t) => t,
        Err(e) => {
            return Err(e);
        },
    };
    if context.original_bom.bom_length > 0 {
        let mut with_bom = get_bom_bytes(context.original_encoding);
        let ghost bom_part = with_bom@;
        let mut body = transcoded_bytes;
        with_bom.append(&mut body);
        proof {
            assert(with_bom@ == bom_part + saved_bytes(content@, *context).unwrap().skip(
                bom_part.len() as int,
            ));
            assert(with_bom@ =~= saved_bytes(content@, *context).unwrap());
        }
        Ok(with_bom)
    } else {
        Ok(transcoded_bytes)
    }
}

/// The sibling temp path an atomic save writes to first: the target path
/// with the configured suffix appended.
pub fn get_temp_path(original_path: &str, suffix: &str) -> (r: String)
    ensures
        r@ == original_path@ + suffix@,
{
    let mut t = original_path.to_owned();
    t.push_str(suffix);
    t
}

/// The byte-identical save law for plain files: content that arrived as
/// UTF-8 with LF endings and no BOM saves back to exactly the bytes it was
/// loaded from.
pub proof fn lemma_utf8_lf_save_round_trip(raw: Seq<u8>, ctx: SaveContext)
    requires
        ctx.original_encoding == Encoding::Utf8,
        ctx.original_eol == EolType::Lf,
        ctx.original_bom.bom_length == 0,
        crate::eol::crlf_count(raw) == 0,
        crate::eol::lone_cr_count(raw) == 0,
    ensures
        crate::eol::normalized(raw) == raw,
        saved_bytes(crate::eol::normalized(raw), ctx) == Some(raw),
{
    crate::eol::lemma_lf_round_trip(raw);
}

/// Whether a raw byte stream's line breaks are uniformly of the given
/// kind: no break of any other kind occurs.
pub open spec fn uniform_eol(raw: Seq<u8>, eol: EolType) -> bool {
    match eol {
        EolType::Lf => crate::eol::crlf_count(raw) == 0 && crate::eol::lone_cr_count(raw) == 0,
        EolType::Crlf => crate::eol::lone_lf_count(raw) == 0 && crate::eol::lone_cr_count(raw)
            == 0,
        EolType::Cr => crate::eol::lone_lf_count(raw) == 0 && crate::eol::crlf_count(raw) == 0,
        EolType::Mixed => false,
    }
}

/// The byte-identical save law for the UTF-8 family: a file whose body
/// arrived as UTF-8 with uniform line endings — with or without a BOM —
/// saves back, unedited, to exactly the bytes it was loaded from.  The
/// loaded content is the normalised body; the save restores the endings,
/// copies the UTF-8 through, and re-attaches the BOM.
pub proof fn lemma_utf8_save_round_trip(body: Seq<u8>, ctx: SaveContext)
    requires
        ctx.original_encoding == Encoding::Utf8,
        uniform_eol(body, ctx.original_eol),
    ensures
        saved_bytes(crate::eol::normalized(body), ctx) == Some(
            if ctx.original_bom.bom_length > 0 {
                bom_bytes_of(Encoding::Utf8) + body
            } else {
                body
            },
        ),
{
    match ctx.original_eol {
        EolType::Lf => {
            crate::eol::lemma_lf_round_trip(body);
        },
        EolType::Crlf => {
            crate::eol::lemma_crlf_round_trip(body);
        },
        EolType::Cr => {
            crate::eol::lemma_cr_round_trip(body);
        },
        EolType::Mixed => {},
    }
    assert(crate::eol::restored(crate::eol::normalized(body), ctx.original_eol) == body);
}

} // verus!
