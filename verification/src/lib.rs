//! Text storage engine for a modal editor: a red-black tree of gap-buffer
//! leaves backing every buffer, together with the pure parts of the file
//! pipeline (encoding detection, line-ending normalisation, transcoding,
//! identity tracking, swap-file headers, change classification) and the
//! screen-layout arithmetic.

pub mod identity;
pub mod layout;
pub mod bom;
pub mod encoding;
pub mod eol;
pub mod leaf;
pub mod load;
pub mod rbrope;
pub mod rbt;
pub mod rope;
pub mod save;
pub mod swap;
pub mod tinyvec;
pub mod transcode;
pub mod watcher;

pub use bom::{BomDetectionResult, detect_bom, get_bom_bytes};
pub use encoding::{DetectionConfidence, DetectionConfig, Encoding, EncodingDetectionResult,
    EncodingError, detect_encoding_heuristic, detect_encoding_heuristic_with_confidence,
    detect_latin_encoding, detect_utf16_pattern, is_valid_utf8};
pub use eol::{EolType, detect_eol, normalize_eol, restore_eol};
pub use identity::{FileIdentity, FileIdentityConfig, fast_content_hash};
pub use layout::{Layout, LayoutManager, Position, Rect, Viewport};
pub use leaf::{LEAF_CAPACITY, LEAF_USABLE, Leaf, RBError};
pub use load::{FileLoadConfig, FileLoadResult, has_extremely_long_lines, is_binary_content,
    load_from_bytes};
pub use rbrope::RBRope;
pub use rbt::RBTree;
pub use rope::{Rope, RopeSlice};
pub use save::{FileSaveConfig, FileSaveResult, SaveContext, get_temp_path,
    prepare_content_for_save};
pub use swap::{CursorPosition, DraftError, DraftResult, SwapConfig, SwapContent, SwapError,
    SwapFile, SwapResult, SwapStatus, ViewportState, deserialize_swap_content,
    serialize_swap_content, swap_due, swap_file_name};
pub use tinyvec::TinyVec;
pub use transcode::{decode_latin, decode_to_utf8, decode_utf16be, decode_utf16le, decode_utf32be,
    decode_utf32le, encode_latin, encode_utf16be, encode_utf16le, encode_utf32be, encode_utf32le,
    transcode_to_encoding, utf8_to_cps};
pub use watcher::{ChangeType, ConflictResolution, FileChange, FileSnapshot, FileState,
    FileWatcher, MergeConflict, ModifiedDisposition, ResolutionOutcome, WatchEvent, WatcherConfig,
    WatcherError, WatcherResult, WriteTarget, debounce_step, event_of};

