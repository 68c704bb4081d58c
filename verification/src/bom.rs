//! Byte Order Mark detection.

use vstd::prelude::*;
use crate::encoding::Encoding;

verus! {

/// Result of BOM detection: the encoding a BOM announces and its length.
#[derive(Debug, Clone, Copy, PartialEq, Eq, Structural)]
pub struct BomDetectionResult {
    pub encoding: Encoding,
    pub bom_length: usize,
}

/// What the first bytes announce: UTF-32 marks win over the UTF-16 marks
/// they begin with; anything else is no BOM.
pub open spec fn bom_of(s: Seq<u8>) -> BomDetectionResult {
    if s.len() >= 4 && s[0] == 0xFF && s[1] == 0xFE && s[2] == 0x00 && s[3] == 0x00 {
        BomDetectionResult { encoding: Encoding::Utf32Le, bom_length: 4 }
    } else if s.len() >= 4 && s[0] == 0x00 && s[1] == 0x00 && s[2] == 0xFE && s[3] == 0xFF {
        BomDetectionResult { encoding: Encoding::Utf32Be, bom_length: 4 }
    } else if s.len() >= 2 && s[0] == 0xFF && s[1] == 0xFE {
        BomDetectionResult { encoding: Encoding::Utf16Le, bom_length: 2 }
    } else if s.len() >= 2 && s[0] == 0xFE && s[1] == 0xFF {
        BomDetectionResult { encoding: Encoding::Utf16Be, bom_length: 2 }
    } else if s.len() >= 3 && s[0] == 0xEF && s[1] == 0xBB && s[2] == 0xBF {
        BomDetectionResult { encoding: Encoding::Utf8, bom_length: 3 }
    } else {
        BomDetectionResult { encoding: Encoding::Unknown, bom_length: 0 }
    }
}

/// Detect a Byte Order Mark in the given byte slice.
pub fn detect_bom(bytes: &[u8]) -> (r: BomDetectionResult)
    ensures
        r == bom_of(bytes@),
        r.bom_length <= bytes@.len(),
{
    if bytes.len() < 2 {
        return BomDetectionResult { encoding: Encoding::Unknown, bom_length: 0 };
    }
    if bytes.len() >= 4 {
        if bytes[0] == 0xFF && bytes[1] == 0xFE && bytes[2] == 0x00 && bytes[3] == 0x00 {
            return BomDetectionResult { encoding: Encoding::Utf32Le, bom_length: 4 };
        }
        if bytes[0] == 0x00 && bytes[1] == 0x00 && bytes[2] == 0xFE && bytes[3] == 0xFF {
            return BomDetectionResult { encoding: Encoding::Utf32Be, bom_length: 4 };
        }
    }
    if bytes[0] == 0xFF && bytes[1] == 0xFE {
        return BomDetectionResult { encoding: Encoding::Utf16Le, bom_length: 2 };
    }
    if bytes[0] == 0xFE && bytes[1] == 0xFF {
        return BomDetectionResult { encoding: Encoding::Utf16Be, bom_length: 2 };
    }
    if bytes.len() >= 3 && bytes[0] == 0xEF && bytes[1] == 0xBB && bytes[2] == 0xBF {
        return BomDetectionResult { encoding: Encoding::Utf8, bom_length: 3 };
    }
    BomDetectionResult { encoding: Encoding::Unknown, bom_length: 0 }
}

/// The BOM bytes an encoding writes; empty for the single-byte encodings.
pub open spec fn bom_bytes_of(e: Encoding) -> Seq<u8> {
    match e {
        Encoding::Utf8 => seq![0xEFu8, 0xBBu8, 0xBFu8],
        Encoding::Utf16Le => seq![0xFFu8, 0xFEu8],
        Encoding::Utf16Be => seq![0xFEu8, 0xFFu8],
        Encoding::Utf32Le => seq![0xFFu8, 0xFEu8, 0x00u8, 0x00u8],
        Encoding::Utf32Be => seq![0x00u8, 0x00u8, 0xFEu8, 0xFFu8],
        _ => Seq::empty(),
    }
}

/// The BOM bytes for an encoding.
pub fn get_bom_bytes(encoding: Encoding) -> (r: Vec<u8>)
    ensures
        r@ == bom_bytes_of(encoding),
{
    match encoding {
        Encoding::Utf8 => {
            let v = vec![0xEFu8, 0xBBu8, 0xBFu8];
            proof {
                assert(v@ =~= bom_bytes_of(Encoding::Utf8));
            }
            v
        },
        Encoding::Utf16Le => {
            let v = vec![0xFFu8, 0xFEu8];
            proof {
                assert(v@ =~= bom_bytes_of(Encoding::Utf16Le));
            }
            v
        },
        Encoding::Utf16Be => {
            let v = vec![0xFEu8, 0xFFu8];
            proof {
                assert(v@ =~= bom_bytes_of(Encoding::Utf16Be));
            }
            v
        },
        Encoding::Utf32Le => {
            let v = vec![0xFFu8, 0xFEu8, 0x00u8, 0x00u8];
            proof {
                assert(v@ =~= bom_bytes_of(Encoding::Utf32Le));
            }
            v
        },
        Encoding::Utf32Be => {
            let v = vec![0x00u8, 0x00u8, 0xFEu8, 0xFFu8];
            proof {
                assert(v@ =~= bom_bytes_of(Encoding::Utf32Be));
            }
            v
        },
        _ => {
            let v = Vec::new();
            proof {
                assert(v@ =~= bom_bytes_of(encoding));
            }
            v
        },
    }
}

} // verus!
