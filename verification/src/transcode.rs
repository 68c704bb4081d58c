//! Transcoding between UTF-8 and the supported on-disk encodings, at the
//! level of Unicode code points: strict UTF-8 parsing, UTF-16/32 in both
//! byte orders, and the Latin single-byte family.

use vstd::prelude::*;
use crate::encoding::{Encoding, EncodingError};

verus! {

/// A Unicode scalar value: in range and not a surrogate.
pub open spec fn is_scalar(cp: int) -> bool {
    0 <= cp <= 0x10FFFF && !(0xD800 <= cp <= 0xDFFF)
}

/// The UTF-8 encoding of one code point.
pub open spec fn utf8_enc(cp: int) -> Seq<u8> {
    if cp < 0x80 {
        seq![cp as u8]
    } else if cp < 0x800 {
        seq![(0xC0 + cp / 0x40) as u8, (0x80 + cp % 0x40) as u8]
    } else if cp < 0x10000 {
        seq![
            (0xE0 + cp / 0x1000) as u8,
            (0x80 + (cp / 0x40) % 0x40) as u8,
            (0x80 + cp % 0x40) as u8,
        ]
    } else {
        seq![
            (0xF0 + cp / 0x40000) as u8,
            (0x80 + (cp / 0x1000) % 0x40) as u8,
            (0x80 + (cp / 0x40) % 0x40) as u8,
            (0x80 + cp % 0x40) as u8,
        ]
    }
}

/// The UTF-8 encoding of a sequence of code points.
pub open spec fn utf8_enc_all(cps: Seq<u32>) -> Seq<u8>
    decreases cps.len(),
{
    if cps.len() == 0 {
        Seq::empty()
    } else {
        utf8_enc(cps[0] as int) + utf8_enc_all(cps.skip(1))
    }
}

pub open spec fn is_cont(b: u8) -> bool {
    0x80 <= b <= 0xBF
}

/// Strict UTF-8 decoding to code points: canonical lengths only, no
/// surrogates, nothing above U+10FFFF.  `None` on any ill-formed input.
pub open spec fn utf8_cps(s: Seq<u8>) -> Option<Seq<u32>>
    decreases s.len(),
{
    if s.len() == 0 {
        Some(Seq::empty())
    } else if s[0] < 0x80 {
        match utf8_cps(s.skip(1)) {
            Some(rest) => Some(seq![s[0] as u32] + rest),
            None => None,
        }
    } else if 0xC2 <= s[0] <= 0xDF {
        if s.len() >= 2 && is_cont(s[1]) {
            match utf8_cps(s.skip(2)) {
                Some(rest) => Some(seq![((s[0] - 0xC0) * 0x40 + (s[1] - 0x80)) as u32] + rest),
                None => None,
            }
        } else {
            None
        }
    } else if 0xE0 <= s[0] <= 0xEF {
        if s.len() >= 3 && is_cont(s[1]) && is_cont(s[2]) && (s[0] != 0xE0 || s[1] >= 0xA0) && (
        s[0] != 0xED || s[1] <= 0x9F) {
            match utf8_cps(s.skip(3)) {
                Some(rest) => Some(
                    seq![
                        (((s[0] - 0xE0) as int) * 0x1000 + ((s[1] - 0x80) as int) * 0x40 + ((s[2]
                            - 0x80) as int)) as u32,
                    ] + rest,
                ),
                None => None,
            }
        } else {
            None
        }
    } else if 0xF0 <= s[0] <= 0xF4 {
        if s.len() >= 4 && is_cont(s[1]) && is_cont(s[2]) && is_cont(s[3]) && (s[0] != 0xF0 || s[1]
            >= 0x90) && (s[0] != 0xF4 || s[1] <= 0x8F) {
            match utf8_cps(s.skip(4)) {
                Some(rest) => Some(
                    seq![
                        (((s[0] - 0xF0) as int) * 0x40000 + ((s[1] - 0x80) as int) * 0x1000 + ((
                        s[2] - 0x80) as int) * 0x40 + ((s[3] - 0x80) as int)) as u32,
                    ] + rest,
                ),
                None => None,
            }
        } else {
            None
        }
    } else {
        None
    }
}

/// The code point a Latin-1 byte stands for: the identity embedding.
pub open spec fn latin1_code(b: u8) -> u32 {
    b as u32
}

/// The code point a Windows-1252 byte stands for: the C1 range carries the
/// Windows punctuation and letters, the rest follows Latin-1.
pub open spec fn windows1252_code(b: u8) -> u32 {
    if b == 0x80 {
        0x20AC
    } else if b == 0x82 {
        0x201A
    } else if b == 0x83 {
        0x0192
    } else if b == 0x84 {
        0x201E
    } else if b == 0x85 {
        0x2026
    } else if b == 0x86 {
        0x2020
    } else if b == 0x87 {
        0x2021
    } else if b == 0x88 {
        0x02C6
    } else if b == 0x89 {
        0x2030
    } else if b == 0x8A {
        0x0160
    } else if b == 0x8B {
        0x2039
    } else if b == 0x8C {
        0x0152
    } else if b == 0x8E {
        0x017D
    } else if b == 0x91 {
        0x2018
    } else if b == 0x92 {
        0x2019
    } else if b == 0x93 {
        0x201C
    } else if b == 0x94 {
        0x201D
    } else if b == 0x95 {
        0x2022
    } else if b == 0x96 {
        0x2013
    } else if b == 0x97 {
        0x2014
    } else if b == 0x98 {
        0x02DC
    } else if b == 0x99 {
        0x2122
    } else if b == 0x9A {
        0x0161
    } else if b == 0x9B {
        0x203A
    } else if b == 0x9C {
        0x0153
    } else if b == 0x9E {
        0x017E
    } else if b == 0x9F {
        0x0178
    } else {
        b as u32
    }
}

/// The code point a Latin-9 byte stands for: eight positions differ from
/// Latin-1.
pub open spec fn latin9_code(b: u8) -> u32 {
    if b == 0xA4 {
        0x20AC
    } else if b == 0xA6 {
        0x0160
    } else if b == 0xA8 {
        0x0161
    } else if b == 0xB4 {
        0x017D
    } else if b == 0xB8 {
        0x017E
    } else if b == 0xBC {
        0x0152
    } else if b == 0xBD {
        0x0153
    } else if b == 0xBE {
        0x0178
    } else {
        b as u32
    }
}

pub open spec fn latin_code(b: u8, enc: Encoding) -> u32 {
    match enc {
        Encoding::Windows1252 => windows1252_code(b),
        Encoding::Latin9 => latin9_code(b),
        _ => latin1_code(b),
    }
}

/// A Latin byte stream decoded to UTF-8.
pub open spec fn latin_decoded(s: Seq<u8>, enc: Encoding) -> Seq<u8>
    decreases s.len(),
{
    if s.len() == 0 {
        Seq::empty()
    } else {
        utf8_enc(latin_code(s[0], enc) as int) + latin_decoded(s.skip(1), enc)
    }
}

/// The Latin byte encoding a code point, if the encoding has one.
pub open spec fn code_to_latin(cp: u32, enc: Encoding) -> Option<u8> {
    match enc {
        Encoding::Windows1252 => {
            if cp == 0x20AC {
                Some(0x80u8)
            } else if cp == 0x201A {
                Some(0x82u8)
            } else if cp == 0x0192 {
                Some(0x83u8)
            } else if cp == 0x201E {
                Some(0x84u8)
            } else if cp == 0x2026 {
                Some(0x85u8)
            } else if cp == 0x2020 {
                Some(0x86u8)
            } else if cp == 0x2021 {
                Some(0x87u8)
            } else if cp == 0x02C6 {
                Some(0x88u8)
            } else if cp == 0x2030 {
                Some(0x89u8)
            } else if cp == 0x0160 {
                Some(0x8Au8)
            } else if cp == 0x2039 {
                Some(0x8Bu8)
            } else if cp == 0x0152 {
                Some(0x8Cu8)
            } else if cp == 0x017D {
                Some(0x8Eu8)
            } else if cp == 0x2018 {
                Some(0x91u8)
            } else if cp == 0x2019 {
                Some(0x92u8)
            } else if cp == 0x201C {
                Some(0x93u8)
            } else if cp == 0x201D {
                Some(0x94u8)
            } else if cp == 0x2022 {
                Some(0x95u8)
            } else if cp == 0x2013 {
                Some(0x96u8)
            } else if cp == 0x2014 {
                Some(0x97u8)
            } else if cp == 0x02DC {
                Some(0x98u8)
            } else if cp == 0x2122 {
                Some(0x99u8)
            } else if cp == 0x0161 {
                Some(0x9Au8)
            } else if cp == 0x203A {
                Some(0x9Bu8)
            } else if cp == 0x0153 {
                Some(0x9Cu8)
            } else if cp == 0x017E {
                Some(0x9Eu8)
            } else if cp == 0x0178 {
                Some(0x9Fu8)
            } else if cp <= 0xFF {
                Some(cp as u8)
            } else {
                None
            }
        },
        Encoding::Latin9 => {
            if cp == 0x20AC {
                Some(0xA4u8)
            } else if cp == 0x0160 {
                Some(0xA6u8)
            } else if cp == 0x0161 {
                Some(0xA8u8)
            } else if cp == 0x017D {
                Some(0xB4u8)
            } else if cp == 0x017E {
                Some(0xB8u8)
            } else if cp == 0x0152 {
                Some(0xBCu8)
            } else if cp == 0x0153 {
                Some(0xBDu8)
            } else if cp == 0x0178 {
                Some(0xBEu8)
            } else if cp <= 0xFF {
                Some(cp as u8)
            } else {
                None
            }
        },
        _ => {
            if cp <= 0xFF {
                Some(cp as u8)
            } else {
                None
            }
        },
    }
}

/// Code points encoded into a Latin encoding; `None` when one has no
/// representation there.
pub open spec fn latin_encoded(cps: Seq<u32>, enc: Encoding) -> Option<Seq<u8>>
    decreases cps.len(),
{
    if cps.len() == 0 {
        Some(Seq::empty())
    } else {
        match code_to_latin(cps[0], enc) {
            None => None,
            Some(b) => match latin_encoded(cps.skip(1), enc) {
                None => None,
                Some(rest) => Some(seq![b] + rest),
            },
        }
    }
}

/// The UTF-16 code units of a sequence of scalar values.
pub open spec fn utf16_units(cps: Seq<u32>) -> Seq<u16>
    decreases cps.len(),
{
    if cps.len() == 0 {
        Seq::empty()
    } else {
        let cp = cps[0] as int;
        let head: Seq<u16> = if cp < 0x10000 {
            seq![cp as u16]
        } else {
            seq![(0xD800 + (cp - 0x10000) / 0x400) as u16, (0xDC00 + (cp - 0x10000) % 0x400) as u16]
        };
        head + utf16_units(cps.skip(1))
    }
}

/// UTF-16 code units decoded to scalar values; `None` on a lone or
/// ill-ordered surrogate.
pub open spec fn utf16_cps(units: Seq<u16>) -> Option<Seq<u32>>
    decreases units.len(),
{
    if units.len() == 0 {
        Some(Seq::empty())
    } else if 0xD800 <= units[0] <= 0xDBFF {
        if units.len() >= 2 && 0xDC00 <= units[1] <= 0xDFFF {
            match utf16_cps(units.skip(2)) {
                Some(rest) => Some(
                    seq![
                        (0x10000 + ((units[0] - 0xD800) as int) * 0x400 + ((units[1]
                            - 0xDC00) as int)) as u32,
                    ] + rest,
                ),
                None => None,
            }
        } else {
            None
        }
    } else if 0xDC00 <= units[0] <= 0xDFFF {
        None
    } else {
        match utf16_cps(units.skip(1)) {
            Some(rest) => Some(seq![units[0] as u32] + rest),
            None => None,
        }
    }
}

/// Bytes paired into u16 code units, little-endian.
pub open spec fn le_units(s: Seq<u8>) -> Seq<u16>
    decreases s.len(),
{
    if s.len() < 2 {
        Seq::empty()
    } else {
        seq![(s[0] + s[1] * 0x100) as u16] + le_units(s.skip(2))
    }
}

/// Bytes paired into u16 code units, big-endian.
pub open spec fn be_units(s: Seq<u8>) -> Seq<u16>
    decreases s.len(),
{
    if s.len() < 2 {
        Seq::empty()
    } else {
        seq![(s[0] * 0x100 + s[1]) as u16] + be_units(s.skip(2))
    }
}

/// Code units serialised to bytes, little-endian.
pub open spec fn units_le_bytes(us: Seq<u16>) -> Seq<u8>
    decreases us.len(),
{
    if us.len() == 0 {
        Seq::empty()
    } else {
        seq![(us[0] % 0x100) as u8, (us[0] / 0x100) as u8] + units_le_bytes(us.skip(1))
    }
}

/// Code units serialised to bytes, big-endian.
pub open spec fn units_be_bytes(us: Seq<u16>) -> Seq<u8>
    decreases us.len(),
{
    if us.len() == 0 {
        Seq::empty()
    } else {
        seq![(us[0] / 0x100) as u8, (us[0] % 0x100) as u8] + units_be_bytes(us.skip(1))
    }
}

/// Code points serialised to 4-byte groups, little-endian.
pub open spec fn cps_le32_bytes(cps: Seq<u32>) -> Seq<u8>
    decreases cps.len(),
{
    if cps.len() == 0 {
        Seq::empty()
    } else {
        let c = cps[0] as int;
        seq![
            (c % 0x100) as u8,
            ((c / 0x100) % 0x100) as u8,
            ((c / 0x10000) % 0x100) as u8,
            ((c / 0x1000000) % 0x100) as u8,
        ] + cps_le32_bytes(cps.skip(1))
    }
}

/// Code points serialised to 4-byte groups, big-endian.
pub open spec fn cps_be32_bytes(cps: Seq<u32>) -> Seq<u8>
    decreases cps.len(),
{
    if cps.len() == 0 {
        Seq::empty()
    } else {
        let c = cps[0] as int;
        seq![
            ((c / 0x1000000) % 0x100) as u8,
            ((c / 0x10000) % 0x100) as u8,
            ((c / 0x100) % 0x100) as u8,
            (c % 0x100) as u8,
        ] + cps_be32_bytes(cps.skip(1))
    }
}

/// 4-byte groups read as code points, little-endian; `None` when the group
/// is no scalar value.
pub open spec fn le32_cps(s: Seq<u8>) -> Option<Seq<u32>>
    decreases s.len(),
{
    if s.len() < 4 {
        Some(Seq::empty())
    } else {
        let c = (s[0] as int) + (s[1] as int) * 0x100 + (s[2] as int) * 0x10000 + (s[3] as int)
            * 0x1000000;
        if is_scalar(c) {
            match le32_cps(s.skip(4)) {
                Some(rest) => Some(seq![c as u32] + rest),
                None => None,
            }
        } else {
            None
        }
    }
}

/// 4-byte groups read as code points, big-endian.
pub open spec fn be32_cps(s: Seq<u8>) -> Option<Seq<u32>>
    decreases s.len(),
{
    if s.len() < 4 {
        Some(Seq::empty())
    } else {
        let c = (s[0] as int) * 0x1000000 + (s[1] as int) * 0x10000 + (s[2] as int) * 0x100 + (
        s[3] as int);
        if is_scalar(c) {
            match be32_cps(s.skip(4)) {
                Some(rest) => Some(seq![c as u32] + rest),
                None => None,
            }
        } else {
            None
        }
    }
}

/// Append the UTF-8 encoding of one scalar value.
fn push_utf8(v: &mut Vec<u8>, cp: u32)
    requires
        cp <= 0x10FFFF,
    ensures
        final(v)@ == old(v)@ + utf8_enc(cp as int),
{
    let ghost v0 = v@;
    if cp < 0x80 {
        v.push(cp as u8);
        proof {
            assert(v@ =~= v0 + utf8_enc(cp as int));
        }
    } else if cp < 0x800 {
        v.push((0xC0 + cp / 0x40) as u8);
        v.push((0x80 + cp % 0x40) as u8);
        proof {
            assert(v@ =~= v0 + utf8_enc(cp as int));
        }
    } else if cp < 0x10000 {
        v.push((0xE0 + cp / 0x1000) as u8);
        v.push((0x80 + (cp / 0x40) % 0x40) as u8);
        v.push((0x80 + cp % 0x40) as u8);
        proof {
            assert(v@ =~= v0 + utf8_enc(cp as int));
        }
    } else {
        v.push((0xF0 + cp / 0x40000) as u8);
        v.push((0x80 + (cp / 0x1000) % 0x40) as u8);
        v.push((0x80 + (cp / 0x40) % 0x40) as u8);
        v.push((0x80 + cp % 0x40) as u8);
        proof {
            assert(v@ =~= v0 + utf8_enc(cp as int));
        }
    }
}

/// Decode a Latin-family byte stream (Latin-1, Windows-1252 or Latin-9) to
/// UTF-8.  Every byte decodes; nothing can fail.
pub fn decode_latin(bytes: &[u8], encoding: Encoding) -> (r: Vec<u8>)
    ensures
        r@ == latin_decoded(bytes@, encoding),
{
    let n = bytes.len();
    let mut out: Vec<u8> = Vec::new();
    let mut i: usize = 0;
    proof {
        assert(bytes@.skip(0) =~= bytes@);
        assert(Seq::<u8>::empty() + latin_decoded(bytes@, encoding) =~= latin_decoded(
            bytes@,
            encoding,
        ));
    }
    while i < n
        invariant
            n == bytes@.len(),
            i <= n,
            latin_decoded(bytes@, encoding) == out@ + latin_decoded(
                bytes@.skip(i as int),
                encoding,
            ),
        decreases n - i,
    {
        let ghost rest = bytes@.skip(i as int);
        let ghost out0 = out@;
        let b = bytes[i];
        proof {
            assert(rest[0] == bytes@[i as int]);
            assert(rest.skip(1) =~= bytes@.skip(i + 1));
        }
        let cp: u32 = match encoding {
            Encoding::Windows1252 => windows1252_to_code(b),
            Encoding::Latin9 => latin9_to_code(b),
            _ => b as u32,
        };
        push_utf8(&mut out, cp);
        proof {
            assert(out@ =~= out0 + utf8_enc(latin_code(bytes@[i as int], encoding) as int));
            assert(out@ + latin_decoded(bytes@.skip(i + 1), encoding) =~= out0 + latin_decoded(
                rest,
                encoding,
            ));
        }
        i += 1;
    }
    proof {
        assert(bytes@.skip(n as int) =~= Seq::<u8>::empty());
        assert(out@ + latin_decoded(bytes@.skip(n as int), encoding) =~= out@);
    }
    out
}

/// The code point a Windows-1252 byte stands for.
pub fn windows1252_to_code(b: u8) -> (r: u32)
    ensures
        r == windows1252_code(b),
        r <= 0x10FFFF,
{
    if b == 0x80 {
        0x20AC
    } else if b == 0x82 {
        0x201A
    } else if b == 0x83 {
        0x0192
    } else if b == 0x84 {
        0x201E
    } else if b == 0x85 {
        0x2026
    } else if b == 0x86 {
        0x2020
    } else if b == 0x87 {
        0x2021
    } else if b == 0x88 {
        0x02C6
    } else if b == 0x89 {
        0x2030
    } else if b == 0x8A {
        0x0160
    } else if b == 0x8B {
        0x2039
    } else if b == 0x8C {
        0x0152
    } else if b == 0x8E {
        0x017D
    } else if b == 0x91 {
        0x2018
    } else if b == 0x92 {
        0x2019
    } else if b == 0x93 {
        0x201C
    } else if b == 0x94 {
        0x201D
    } else if b == 0x95 {
        0x2022
    } else if b == 0x96 {
        0x2013
    } else if b == 0x97 {
        0x2014
    } else if b == 0x98 {
        0x02DC
    } else if b == 0x99 {
        0x2122
    } else if b == 0x9A {
        0x0161
    } else if b == 0x9B {
        0x203A
    } else if b == 0x9C {
        0x0153
    } else if b == 0x9E {
        0x017E
    } else if b == 0x9F {
        0x0178
    } else {
        b as u32
    }
}

/// The code point a Latin-9 byte stands for.
pub fn latin9_to_code(b: u8) -> (r: u32)
    ensures
        r == latin9_code(b),
        r <= 0x10FFFF,
{
    if b == 0xA4 {
        0x20AC
    } else if b == 0xA6 {
        0x0160
    } else if b == 0xA8 {
        0x0161
    } else if b == 0xB4 {
        0x017D
    } else if b == 0xB8 {
        0x017E
    } else if b == 0xBC {
        0x0152
    } else if b == 0xBD {
        0x0153
    } else if b == 0xBE {
        0x0178
    } else {
        b as u32
    }
}

/// The Latin byte for a code point, per `code_to_latin`.
fn code_to_latin_byte(cp: u32, enc: Encoding) -> (r: Option<u8>)
    ensures
        r == code_to_latin(cp, enc),
{
    match enc {
        Encoding::Windows1252 => {
            if cp == 0x20AC {
                Some(0x80)
            } else if cp == 0x201A {
                Some(0x82)
            } else if cp == 0x0192 {
                Some(0x83)
            } else if cp == 0x201E {
                Some(0x84)
            } else if cp == 0x2026 {
                Some(0x85)
            } else if cp == 0x2020 {
                Some(0x86)
            } else if cp == 0x2021 {
                Some(0x87)
            } else if cp == 0x02C6 {
                Some(0x88)
            } else if cp == 0x2030 {
                Some(0x89)
            } else if cp == 0x0160 {
                Some(0x8A)
            } else if cp == 0x2039 {
                Some(0x8B)
            } else if cp == 0x0152 {
                Some(0x8C)
            } else if cp == 0x017D {
                Some(0x8E)
            } else if cp == 0x2018 {
                Some(0x91)
            } else if cp == 0x2019 {
                Some(0x92)
            } else if cp == 0x201C {
                Some(0x93)
            } else if cp == 0x201D {
                Some(0x94)
            } else if cp == 0x2022 {
                Some(0x95)
            } else if cp == 0x2013 {
                Some(0x96)
            } else if cp == 0x2014 {
                Some(0x97)
            } else if cp == 0x02DC {
                Some(0x98)
            } else if cp == 0x2122 {
                Some(0x99)
            } else if cp == 0x0161 {
                Some(0x9A)
            } else if cp == 0x203A {
                Some(0x9B)
            } else if cp == 0x0153 {
                Some(0x9C)
            } else if cp == 0x017E {
                Some(0x9E)
            } else if cp == 0x0178 {
                Some(0x9F)
            } else if cp <= 0xFF {
                Some(cp as u8)
            } else {
                None
            }
        },
        Encoding::Latin9 => {
            if cp == 0x20AC {
                Some(0xA4)
            } else if cp == 0x0160 {
                Some(0xA6)
            } else if cp == 0x0161 {
                Some(0xA8)
            } else if cp == 0x017D {
                Some(0xB4)
            } else if cp == 0x017E {
                Some(0xB8)
            } else if cp == 0x0152 {
                Some(0xBC)
            } else if cp == 0x0153 {
                Some(0xBD)
            } else if cp == 0x0178 {
                Some(0xBE)
            } else if cp <= 0xFF {
                Some(cp as u8)
            } else {
                None
            }
        },
        _ => {
            if cp <= 0xFF {
                Some(cp as u8)
            } else {
                None
            }
        },
    }
}

/// Parse strict UTF-8 into code points.
pub fn utf8_to_cps(s: &[u8]) -> (r: Result<Vec<u32>, EncodingError>)
    ensures
        match r {
            Ok(v) => utf8_cps(s@) == Some(v@),
            Err(e) => e == EncodingError::BinaryFile && utf8_cps(s@) is None,
        },
{
    let n = s.len();
    let mut out: Vec<u32> = Vec::new();
    let mut i: usize = 0;
    proof {
        assert(s@.skip(0) =~= s@);
    }
    while i < n
        invariant
            n == s@.len(),
            i <= n,
            match utf8_cps(s@.skip(i as int)) {
                Some(rest) => utf8_cps(s@) == Some(out@ + rest),
                None => utf8_cps(s@) is None,
            },
        decreases n - i,
    {
        let ghost rest = s@.skip(i as int);
        let ghost out0 = out@;
        let b = s[i];
        proof {
            assert(rest[0] == s@[i as int]);
            assert(rest.len() == n - i);
        }
        if b < 0x80 {
            proof {
                assert(rest.skip(1) =~= s@.skip(i + 1));
            }
            out.push(b as u32);
            proof {
                if utf8_cps(s@.skip(i + 1)) is Some {
                    assert(out0 + (seq![s@[i as int] as u32] + utf8_cps(s@.skip(i + 1)).unwrap())
                        =~= out@ + utf8_cps(s@.skip(i + 1)).unwrap());
                }
            }
            i += 1;
        } else if 0xC2 <= b && b <= 0xDF {
            if n - i < 2 || !(0x80 <= s[i + 1] && s[i + 1] <= 0xBF) {
                proof {
                    if rest.len() >= 2 {
                        assert(rest[1] == s@[i + 1]);
                    }
                }
                return Err(EncodingError::BinaryFile);
            }
            let b1 = s[i + 1];
            proof {
                assert(rest[1] == s@[i + 1]);
                assert(rest.skip(2) =~= s@.skip(i + 2));
            }
            out.push((b - 0xC0) as u32 * 0x40 + (b1 - 0x80) as u32);
            proof {
                if utf8_cps(s@.skip(i + 2)) is Some {
                    assert(out0 + (seq![((rest[0] - 0xC0) * 0x40 + (rest[1] - 0x80)) as u32]
                        + utf8_cps(s@.skip(i + 2)).unwrap()) =~= out@ + utf8_cps(
                        s@.skip(i + 2),
                    ).unwrap());
                }
            }
            i += 2;
        } else if 0xE0 <= b && b <= 0xEF {
            if n - i < 3 || !(0x80 <= s[i + 1] && s[i + 1] <= 0xBF) || !(0x80 <= s[i + 2] && s[i
                + 2] <= 0xBF) || (b == 0xE0 && s[i + 1] < 0xA0) || (b == 0xED && s[i + 1] > 0x9F) {
                proof {
                    if rest.len() >= 2 {
                        assert(rest[1] == s@[i + 1]);
                    }
                    if rest.len() >= 3 {
                        assert(rest[2] == s@[i + 2]);
                    }
                }
                return Err(EncodingError::BinaryFile);
            }
            let b1 = s[i + 1];
            let b2 = s[i + 2];
            proof {
                assert(rest[1] == s@[i + 1]);
                assert(rest[2] == s@[i + 2]);
                assert(rest.skip(3) =~= s@.skip(i + 3));
            }
            out.push((b - 0xE0) as u32 * 0x1000 + (b1 - 0x80) as u32 * 0x40 + (b2 - 0x80) as u32);
            proof {
                if utf8_cps(s@.skip(i + 3)) is Some {
                    assert(out0 + (seq![
                        (((rest[0] - 0xE0) as int) * 0x1000 + ((rest[1] - 0x80) as int) * 0x40 + ((
                        rest[2] - 0x80) as int)) as u32,
                    ] + utf8_cps(s@.skip(i + 3)).unwrap()) =~= out@ + utf8_cps(
                        s@.skip(i + 3),
                    ).unwrap());
                }
            }
            i += 3;
        } else if 0xF0 <= b && b <= 0xF4 {
            if n - i < 4 || !(0x80 <= s[i + 1] && s[i + 1] <= 0xBF) || !(0x80 <= s[i + 2] && s[i
                + 2] <= 0xBF) || !(0x80 <= s[i + 3] && s[i + 3] <= 0xBF) || (b == 0xF0 && s[i + 1]
                < 0x90) || (b == 0xF4 && s[i + 1] > 0x8F) {
                proof {
                    if rest.len() >= 2 {
                        assert(rest[1] == s@[i + 1]);
                    }
                    if rest.len() >= 3 {
                        assert(rest[2] == s@[i + 2]);
                    }
                    if rest.len() >= 4 {
                        assert(rest[3] == s@[i + 3]);
                    }
                }
                return Err(EncodingError::BinaryFile);
            }
            let b1 = s[i + 1];
            let b2 = s[i + 2];
            let b3 = s[i + 3];
            proof {
                assert(rest[1] == s@[i + 1]);
                assert(rest[2] == s@[i + 2]);
                assert(rest[3] == s@[i + 3]);
                assert(rest.skip(4) =~= s@.skip(i + 4));
            }
            out.push(
                (b - 0xF0) as u32 * 0x40000 + (b1 - 0x80) as u32 * 0x1000 + (b2 - 0x80) as u32
                    * 0x40 + (b3 - 0x80) as u32,
            );
            proof {
                if utf8_cps(s@.skip(i + 4)) is Some {
                    assert(out0 + (seq![
                        (((rest[0] - 0xF0) as int) * 0x40000 + ((rest[1] - 0x80) as int) * 0x1000
                            + ((rest[2] - 0x80) as int) * 0x40 + ((rest[3] - 0x80) as int)) as u32,
                    ] + utf8_cps(s@.skip(i + 4)).unwrap()) =~= out@ + utf8_cps(
                        s@.skip(i + 4),
                    ).unwrap());
                }
            }
            i += 4;
        } else {
            return Err(EncodingError::BinaryFile);
        }
    }
    proof {
        assert(s@.skip(n as int) =~= Seq::<u8>::empty());
        assert(out@ + Seq::<u32>::empty() =~= out@);
    }
    Ok(out)
}

/// Every code point strict UTF-8 yields is a scalar value.
pub proof fn lemma_utf8_cps_scalar(s: Seq<u8>)
    requires
        utf8_cps(s) is Some,
    ensures
        forall|k: int|
            0 <= k < utf8_cps(s).unwrap().len() ==> is_scalar(#[trigger] utf8_cps(s).unwrap()[k] as int),
    decreases s.len(),
{
    if s.len() == 0 {
    } else if s[0] < 0x80 {
        lemma_utf8_cps_scalar(s.skip(1));
    } else if 0xC2 <= s[0] <= 0xDF {
        lemma_utf8_cps_scalar(s.skip(2));
    } else if 0xE0 <= s[0] <= 0xEF {
        lemma_utf8_cps_scalar(s.skip(3));
    } else {
        lemma_utf8_cps_scalar(s.skip(4));
    }
}

/// Encode UTF-8 content into a Latin single-byte encoding.  Fails with the
/// binary-content error exactly when the input is not valid UTF-8 or holds
/// a code point the encoding cannot represent.
pub fn encode_latin(content: &[u8], encoding: Encoding) -> (r: Result<Vec<u8>, EncodingError>)
    ensures
        match r {
            Ok(v) => {
                &&& utf8_cps(content@) is Some
                &&& latin_encoded(utf8_cps(content@).unwrap(), encoding) == Some(v@)
            },
            Err(e) => {
                &&& (utf8_cps(content@) is None || latin_encoded(
                    utf8_cps(content@).unwrap(),
                    encoding,
                ) is None)
                &&& e == if utf8_cps(content@) is None {
                    EncodingError::BinaryFile
                } else {
                    EncodingError::EncodingLoss
                }
            },
        },
{
    let cps = match utf8_to_cps(content) {
        Ok(v) => v,
        Err(e) => {
            return Err(e);
        },
    };
    let n = cps.len();
    let mut out: Vec<u8> = Vec::new();
    let mut i: usize = 0;
    proof {
        assert(cps@.skip(0) =~= cps@);
    }
    while i < n
        invariant
            n == cps@.len(),
            i <= n,
            utf8_cps(content@) == Some(cps@),
            match latin_encoded(cps@.skip(i as int), encoding) {
                Some(rest) => latin_encoded(cps@, encoding) == Some(out@ + rest),
                None => latin_encoded(cps@, encoding) is None,
            },
        decreases n - i,
    {
        let ghost rest = cps@.skip(i as int);
        let ghost out0 = out@;
        let cp = cps[i];
        proof {
            assert(rest[0] == cps@[i as int]);
            assert(rest.skip(1) =~= cps@.skip(i + 1));
        }
        let b = match code_to_latin_byte(cp, encoding) {
            Some(b) => b,
            None => {
                return Err(EncodingError::EncodingLoss);
            },
        };
        out.push(b);
        proof {
            if latin_encoded(cps@.skip(i + 1), encoding) is Some {
                assert(out0 + (seq![b] + latin_encoded(cps@.skip(i + 1), encoding).unwrap()) =~= out@
                    + latin_encoded(cps@.skip(i + 1), encoding).unwrap());
            }
        }
        i += 1;
    }
    proof {
        assert(cps@.skip(n as int) =~= Seq::<u32>::empty());
        assert(out@ + Seq::<u8>::empty() =~= out@);
    }
    Ok(out)
}

/// What the loader turns raw bytes into: the UTF-8 form of the content, or
/// nothing when the bytes are ill-formed for the encoding.
pub open spec fn decoded_content(s: Seq<u8>, enc: Encoding) -> Option<Seq<u8>> {
    match enc {
        Encoding::Utf8 => if utf8_cps(s) is Some {
            Some(s)
        } else {
            None
        },
        Encoding::Utf16Le => if s.len() % 2 == 0 && utf16_cps(le_units(s)) is Some {
            Some(utf8_enc_all(utf16_cps(le_units(s)).unwrap()))
        } else {
            None
        },
        Encoding::Utf16Be => if s.len() % 2 == 0 && utf16_cps(be_units(s)) is Some {
            Some(utf8_enc_all(utf16_cps(be_units(s)).unwrap()))
        } else {
            None
        },
        Encoding::Utf32Le => if s.len() % 4 == 0 && le32_cps(s) is Some {
            Some(utf8_enc_all(le32_cps(s).unwrap()))
        } else {
            None
        },
        Encoding::Utf32Be => if s.len() % 4 == 0 && be32_cps(s) is Some {
            Some(utf8_enc_all(be32_cps(s).unwrap()))
        } else {
            None
        },
        Encoding::Latin1 | Encoding::Windows1252 | Encoding::Latin9 => Some(latin_decoded(s, enc)),
        Encoding::Unknown => None,
    }
}

/// The error a failed transcode reports: ill-formed UTF-8 (or an unknown
/// target) is treated as binary content; valid text that the target cannot
/// carry is an encoding loss.
pub open spec fn encode_error_kind(s: Seq<u8>, enc: Encoding) -> EncodingError {
    if enc == Encoding::Unknown || utf8_cps(s) is None {
        EncodingError::BinaryFile
    } else {
        EncodingError::EncodingLoss
    }
}

/// What the saver turns UTF-8 content into for the given on-disk encoding,
/// or nothing when the content is ill-formed or unrepresentable.
pub open spec fn transcoded(s: Seq<u8>, enc: Encoding) -> Option<Seq<u8>> {
    match enc {
        Encoding::Utf8 => Some(s),
        Encoding::Utf16Le => if utf8_cps(s) is Some {
            Some(units_le_bytes(utf16_units(utf8_cps(s).unwrap())))
        } else {
            None
        },
        Encoding::Utf16Be => if utf8_cps(s) is Some {
            Some(units_be_bytes(utf16_units(utf8_cps(s).unwrap())))
        } else {
            None
        },
        Encoding::Utf32Le => if utf8_cps(s) is Some {
            Some(cps_le32_bytes(utf8_cps(s).unwrap()))
        } else {
            None
        },
        Encoding::Utf32Be => if utf8_cps(s) is Some {
            Some(cps_be32_bytes(utf8_cps(s).unwrap()))
        } else {
            None
        },
        Encoding::Latin1 | Encoding::Windows1252 | Encoding::Latin9 => {
            if utf8_cps(s) is Some {
                latin_encoded(utf8_cps(s).unwrap(), enc)
            } else {
                None
            }
        },
        Encoding::Unknown => None,
    }
}

/// Pair bytes into UTF-16 code units of the given endianness.
fn bytes_to_units(bytes: &[u8], big: bool) -> (r: Vec<u16>)
    requires
        bytes@.len() % 2 == 0,
    ensures
        r@ == if big {
            be_units(bytes@)
        } else {
            le_units(bytes@)
        },
{
    let n = bytes.len();
    let mut out: Vec<u16> = Vec::new();
    let mut i: usize = 0;
    proof {
        assert(bytes@.skip(0) =~= bytes@);
    }
    while i < n
        invariant
            n == bytes@.len(),
            n % 2 == 0,
            i % 2 == 0,
            i <= n,
            ({
                let whole = if big {
                    be_units(bytes@)
                } else {
                    le_units(bytes@)
                };
                let tail = if big {
                    be_units(bytes@.skip(i as int))
                } else {
                    le_units(bytes@.skip(i as int))
                };
                whole == out@ + tail
            }),
        decreases n - i,
    {
        let ghost rest = bytes@.skip(i as int);
        let ghost out0 = out@;
        let u: u16 = if big {
            (bytes[i] as u16) * 0x100 + (bytes[i + 1] as u16)
        } else {
            (bytes[i] as u16) + (bytes[i + 1] as u16) * 0x100
        };
        proof {
            assert(rest[0] == bytes@[i as int]);
            assert(rest[1] == bytes@[i + 1]);
            assert(rest.skip(2) =~= bytes@.skip(i + 2));
        }
        out.push(u);
        proof {
            if big {
                assert(out@ + be_units(bytes@.skip(i + 2)) =~= out0 + be_units(rest));
            } else {
                assert(out@ + le_units(bytes@.skip(i + 2)) =~= out0 + le_units(rest));
            }
        }
        i += 2;
    }
    proof {
        assert(bytes@.skip(n as int) =~= Seq::<u8>::empty());
        if big {
            assert(out@ + be_units(Seq::<u8>::empty()) =~= out@);
        } else {
            assert(out@ + le_units(Seq::<u8>::empty()) =~= out@);
        }
    }
    out
}

/// Decode UTF-16 code units (pairing surrogates) to UTF-8 bytes.
#[verifier::rlimit(100)]
fn units_to_utf8(units: &Vec<u16>) -> (r: Result<Vec<u8>, EncodingError>)
    ensures
        match r {
            Ok(v) => utf16_cps(units@) is Some && v@ == utf8_enc_all(utf16_cps(units@).unwrap()),
            Err(e) => e == EncodingError::BinaryFile && utf16_cps(units@) is None,
        },
{
    let n = units.len();
    let mut out: Vec<u8> = Vec::new();
    let mut i: usize = 0;
    proof {
        assert(units@.skip(0) =~= units@);
    }
    while i < n
        invariant
            n == units@.len(),
            i <= n,
            match utf16_cps(units@.skip(i as int)) {
                Some(rest) => utf16_cps(units@) is Some && out@ + utf8_enc_all(rest)
                    == utf8_enc_all(utf16_cps(units@).unwrap()),
                None => utf16_cps(units@) is None,
            },
        decreases n - i,
    {
        let ghost rest = units@.skip(i as int);
        let ghost out0 = out@;
        let u0 = units[i];
        proof {
            assert(rest[0] == units@[i as int]);
            assert(rest.skip(1) =~= units@.skip(i + 1));
        }
        if 0xD800 <= u0 && u0 <= 0xDBFF {
            if n - i < 2 {
                return Err(EncodingError::BinaryFile);
            }
            let u1 = units[i + 1];
            proof {
                assert(rest[1] == units@[i + 1]);
                assert(rest.skip(2) =~= units@.skip(i + 2));
            }
            if !(0xDC00 <= u1 && u1 <= 0xDFFF) {
                return Err(EncodingError::BinaryFile);
            }
            let cp: u32 = 0x10000 + (u0 - 0xD800) as u32 * 0x400 + (u1 - 0xDC00) as u32;
            push_utf8(&mut out, cp);
            proof {
                if utf16_cps(units@.skip(i + 2)) is Some {
                    let t = utf16_cps(units@.skip(i + 2)).unwrap();
                    assert(utf16_cps(rest) == Some(seq![cp] + t));
                    assert((seq![cp] + t)[0] == cp);
                    assert((seq![cp] + t).skip(1) =~= t);
                    assert(utf8_enc_all(seq![cp] + t) == utf8_enc(cp as int) + utf8_enc_all(t));
                    assert(out@ + utf8_enc_all(t) =~= out0 + utf8_enc_all(seq![cp] + t));
                }
            }
            i += 2;
        } else if 0xDC00 <= u0 && u0 <= 0xDFFF {
            return Err(EncodingError::BinaryFile);
        } else {
            push_utf8(&mut out, u0 as u32);
            proof {
                if utf16_cps(units@.skip(i + 1)) is Some {
                    let t = utf16_cps(units@.skip(i + 1)).unwrap();
                    assert(utf16_cps(rest) == Some(seq![u0 as u32] + t));
                    assert((seq![u0 as u32] + t)[0] == u0 as u32);
                    assert((seq![u0 as u32] + t).skip(1) =~= t);
                    assert(utf8_enc_all(seq![u0 as u32] + t) == utf8_enc(u0 as int) + utf8_enc_all(
                        t,
                    ));
                    assert(out@ + utf8_enc_all(t) =~= out0 + utf8_enc_all(seq![u0 as u32] + t));
                }
            }
            i += 1;
        }
    }
    proof {
        assert(units@.skip(n as int) =~= Seq::<u16>::empty());
        assert(utf16_cps(Seq::<u16>::empty()) == Some(Seq::<u32>::empty()));
        assert(out@ + utf8_enc_all(Seq::<u32>::empty()) =~= out@);
    }
    Ok(out)
}

/// Decode UTF-16 bytes of either endianness to UTF-8.
fn decode_utf16(bytes: &[u8], big: bool) -> (r: Result<Vec<u8>, EncodingError>)
    ensures
        ({
            let units = if big {
                be_units(bytes@)
            } else {
                le_units(bytes@)
            };
            match r {
                Ok(v) => {
                    &&& bytes@.len() % 2 == 0
                    &&& utf16_cps(units) is Some
                    &&& v@ == utf8_enc_all(utf16_cps(units).unwrap())
                },
                Err(e) => {
                    &&& e == EncodingError::BinaryFile
                    &&& (bytes@.len() % 2 != 0 || utf16_cps(units) is None)
                },
            }
        }),
{
    if bytes.len() % 2 != 0 {
        return Err(EncodingError::BinaryFile);
    }
    let units = bytes_to_units(bytes, big);
    units_to_utf8(&units)
}

/// Decode UTF-16LE bytes to UTF-8.
pub fn decode_utf16le(bytes: &[u8]) -> (r: Result<Vec<u8>, EncodingError>)
    ensures
        match r {
            Ok(v) => decoded_content(bytes@, Encoding::Utf16Le) == Some(v@),
            Err(e) => e == EncodingError::BinaryFile && decoded_content(
                bytes@,
                Encoding::Utf16Le,
            ) is None,
        },
{
    decode_utf16(bytes, false)
}

/// Decode UTF-16BE bytes to UTF-8.
pub fn decode_utf16be(bytes: &[u8]) -> (r: Result<Vec<u8>, EncodingError>)
    ensures
        match r {
            Ok(v) => decoded_content(bytes@, Encoding::Utf16Be) == Some(v@),
            Err(e) => e == EncodingError::BinaryFile && decoded_content(
                bytes@,
                Encoding::Utf16Be,
            ) is None,
        },
{
    decode_utf16(bytes, true)
}

/// Decode little-endian UTF-32 groups to UTF-8.
#[verifier::rlimit(100)]
fn decode_utf32_le_groups(bytes: &[u8]) -> (r: Result<Vec<u8>, EncodingError>)
    requires
        bytes@.len() % 4 == 0,
    ensures
        match r {
            Ok(v) => le32_cps(bytes@) is Some && v@ == utf8_enc_all(le32_cps(bytes@).unwrap()),
            Err(e) => e == EncodingError::BinaryFile && le32_cps(bytes@) is None,
        },
{
    let n = bytes.len();
    let mut out: Vec<u8> = Vec::new();
    let mut i: usize = 0;
    proof {
        assert(bytes@.skip(0) =~= bytes@);
    }
    while i < n
        invariant
            n == bytes@.len(),
            n % 4 == 0,
            i % 4 == 0,
            i <= n,
            match le32_cps(bytes@.skip(i as int)) {
                Some(rest) => le32_cps(bytes@) is Some && out@ + utf8_enc_all(rest)
                    == utf8_enc_all(le32_cps(bytes@).unwrap()),
                None => le32_cps(bytes@) is None,
            },
        decreases n - i,
    {
        let ghost rest_b = bytes@.skip(i as int);
        let ghost out0 = out@;
        let c: u64 = (bytes[i] as u64) + (bytes[i + 1] as u64) * 0x100 + (bytes[i
            + 2] as u64) * 0x10000 + (bytes[i + 3] as u64) * 0x1000000;
        proof {
            assert(rest_b[0] == bytes@[i as int]);
            assert(rest_b[1] == bytes@[i + 1]);
            assert(rest_b[2] == bytes@[i + 2]);
            assert(rest_b[3] == bytes@[i + 3]);
            assert(rest_b.skip(4) =~= bytes@.skip(i + 4));
        }
        if c > 0x10FFFF || (0xD800 <= c && c <= 0xDFFF) {
            return Err(EncodingError::BinaryFile);
        }
        push_utf8(&mut out, c as u32);
        proof {
            let t4 = le32_cps(bytes@.skip(i + 4));
            if t4 is Some {
                assert(utf8_enc_all(seq![c as u32] + t4.unwrap()) == utf8_enc(c as int)
                    + utf8_enc_all((seq![c as u32] + t4.unwrap()).skip(1)));
                assert((seq![c as u32] + t4.unwrap()).skip(1) =~= t4.unwrap());
                assert(out@ + utf8_enc_all(t4.unwrap()) =~= out0 + utf8_enc(c as int)
                    + utf8_enc_all(t4.unwrap()));
            }
        }
        i += 4;
    }
    proof {
        assert(bytes@.skip(n as int) =~= Seq::<u8>::empty());
        assert(out@ + utf8_enc_all(Seq::<u32>::empty()) =~= out@);
    }
    Ok(out)
}

/// Decode big-endian UTF-32 groups to UTF-8.
#[verifier::rlimit(100)]
fn decode_utf32_be_groups(bytes: &[u8]) -> (r: Result<Vec<u8>, EncodingError>)
    requires
        bytes@.len() % 4 == 0,
    ensures
        match r {
            Ok(v) => be32_cps(bytes@) is Some && v@ == utf8_enc_all(be32_cps(bytes@).unwrap()),
            Err(e) => e == EncodingError::BinaryFile && be32_cps(bytes@) is None,
        },
{
    let n = bytes.len();
    let mut out: Vec<u8> = Vec::new();
    let mut i: usize = 0;
    proof {
        assert(bytes@.skip(0) =~= bytes@);
    }
    while i < n
        invariant
            n == bytes@.len(),
            n % 4 == 0,
            i % 4 == 0,
            i <= n,
            match be32_cps(bytes@.skip(i as int)) {
                Some(rest) => be32_cps(bytes@) is Some && out@ + utf8_enc_all(rest)
                    == utf8_enc_all(be32_cps(bytes@).unwrap()),
                None => be32_cps(bytes@) is None,
            },
        decreases n - i,
    {
        let ghost rest_b = bytes@.skip(i as int);
        let ghost out0 = out@;
        let c: u64 = (bytes[i] as u64) * 0x1000000 + (bytes[i + 1] as u64) * 0x10000 + (bytes[i
            + 2] as u64) * 0x100 + (bytes[i + 3] as u64);
        proof {
            assert(rest_b[0] == bytes@[i as int]);
            assert(rest_b[1] == bytes@[i + 1]);
            assert(rest_b[2] == bytes@[i + 2]);
            assert(rest_b[3] == bytes@[i + 3]);
            assert(rest_b.skip(4) =~= bytes@.skip(i + 4));
        }
        if c > 0x10FFFF || (0xD800 <= c && c <= 0xDFFF) {
            return Err(EncodingError::BinaryFile);
        }
        push_utf8(&mut out, c as u32);
        proof {
            let t4 = be32_cps(bytes@.skip(i + 4));
            if t4 is Some {
                assert(utf8_enc_all(seq![c as u32] + t4.unwrap()) == utf8_enc(c as int)
                    + utf8_enc_all((seq![c as u32] + t4.unwrap()).skip(1)));
                assert((seq![c as u32] + t4.unwrap()).skip(1) =~= t4.unwrap());
                assert(out@ + utf8_enc_all(t4.unwrap()) =~= out0 + utf8_enc(c as int)
                    + utf8_enc_all(t4.unwrap()));
            }
        }
        i += 4;
    }
    proof {
        assert(bytes@.skip(n as int) =~= Seq::<u8>::empty());
        assert(out@ + utf8_enc_all(Seq::<u32>::empty()) =~= out@);
    }
    Ok(out)
}

/// Decode UTF-32LE bytes to UTF-8.
/// Decode UTF-32LE bytes to UTF-8.
pub fn decode_utf32le(bytes: &[u8]) -> (r: Result<Vec<u8>, EncodingError>)
    ensures
        match r {
            Ok(v) => decoded_content(bytes@, Encoding::Utf32Le) == Some(v@),
            Err(e) => e == EncodingError::BinaryFile && decoded_content(
                bytes@,
                Encoding::Utf32Le,
            ) is None,
        },
{
    if bytes.len() % 4 != 0 {
        return Err(EncodingError::BinaryFile);
    }
    decode_utf32_le_groups(bytes)
}

/// Decode UTF-32BE bytes to UTF-8.
pub fn decode_utf32be(bytes: &[u8]) -> (r: Result<Vec<u8>, EncodingError>)
    ensures
        match r {
            Ok(v) => decoded_content(bytes@, Encoding::Utf32Be) == Some(v@),
            Err(e) => e == EncodingError::BinaryFile && decoded_content(
                bytes@,
                Encoding::Utf32Be,
            ) is None,
        },
{
    if bytes.len() % 4 != 0 {
        return Err(EncodingError::BinaryFile);
    }
    decode_utf32_be_groups(bytes)
}

/// Serialise code points as UTF-16 of the given endianness.
#[verifier::rlimit(100)]
fn cps_to_utf16(cps: &Vec<u32>, big: bool) -> (r: Vec<u8>)
    requires
        forall|k: int| 0 <= k < cps@.len() ==> is_scalar(#[trigger] cps@[k] as int),
    ensures
        r@ == if big {
            units_be_bytes(utf16_units(cps@))
        } else {
            units_le_bytes(utf16_units(cps@))
        },
{
    let n = cps.len();
    let mut out: Vec<u8> = Vec::new();
    let mut i: usize = 0;
    proof {
        assert(cps@.skip(0) =~= cps@);
    }
    while i < n
        invariant
            n == cps@.len(),
            i <= n,
            forall|k: int| 0 <= k < cps@.len() ==> is_scalar(#[trigger] cps@[k] as int),
            ({
                let whole = if big {
                    units_be_bytes(utf16_units(cps@))
                } else {
                    units_le_bytes(utf16_units(cps@))
                };
                let tail = if big {
                    units_be_bytes(utf16_units(cps@.skip(i as int)))
                } else {
                    units_le_bytes(utf16_units(cps@.skip(i as int)))
                };
                whole == out@ + tail
            }),
        decreases n - i,
    {
        let ghost rest = cps@.skip(i as int);
        let ghost out0 = out@;
        let cp = cps[i];
        proof {
            assert(rest[0] == cps@[i as int]);
            assert(rest.skip(1) =~= cps@.skip(i + 1));
        }
        if cp < 0x10000 {
            let u: u32 = cp;
            if big {
                out.push((u / 0x100) as u8);
                out.push((u % 0x100) as u8);
            } else {
                out.push((u % 0x100) as u8);
                out.push((u / 0x100) as u8);
            }
            proof {
                let units_r = utf16_units(rest);
                assert(units_r == seq![cp as u16] + utf16_units(cps@.skip(i + 1)));
                assert(units_r[0] == cp as u16);
                assert(units_r.skip(1) =~= utf16_units(cps@.skip(i + 1)));
                if big {
                    assert(units_be_bytes(units_r) == seq![
                        (units_r[0] / 0x100) as u8,
                        (units_r[0] % 0x100) as u8,
                    ] + units_be_bytes(units_r.skip(1)));
                    assert(out@ + units_be_bytes(utf16_units(cps@.skip(i + 1))) =~= out0
                        + units_be_bytes(units_r));
                } else {
                    assert(units_le_bytes(units_r) == seq![
                        (units_r[0] % 0x100) as u8,
                        (units_r[0] / 0x100) as u8,
                    ] + units_le_bytes(units_r.skip(1)));
                    assert(out@ + units_le_bytes(utf16_units(cps@.skip(i + 1))) =~= out0
                        + units_le_bytes(units_r));
                }
            }
        } else {
            let hi: u32 = 0xD800 + (cp - 0x10000) / 0x400;
            let lo: u32 = 0xDC00 + (cp - 0x10000) % 0x400;
            if big {
                out.push((hi / 0x100) as u8);
                out.push((hi % 0x100) as u8);
                out.push((lo / 0x100) as u8);
                out.push((lo % 0x100) as u8);
            } else {
                out.push((hi % 0x100) as u8);
                out.push((hi / 0x100) as u8);
                out.push((lo % 0x100) as u8);
                out.push((lo / 0x100) as u8);
            }
            proof {
                assert(is_scalar(cps@[i as int] as int));
                assert(hi < 0x10000 && lo < 0x10000);
                let units_r = utf16_units(rest);
                let pair = seq![hi as u16, lo as u16];
                assert(units_r == pair + utf16_units(cps@.skip(i + 1)));
                assert(units_r[0] == hi as u16);
                assert(units_r.skip(1) =~= seq![lo as u16] + utf16_units(cps@.skip(i + 1)));
                assert(units_r.skip(1)[0] == lo as u16);
                assert(units_r.skip(1).skip(1) =~= utf16_units(cps@.skip(i + 1)));
                if big {
                    assert(units_be_bytes(units_r) == seq![
                        (units_r[0] / 0x100) as u8,
                        (units_r[0] % 0x100) as u8,
                    ] + units_be_bytes(units_r.skip(1)));
                    assert(units_be_bytes(units_r.skip(1)) == seq![
                        (units_r.skip(1)[0] / 0x100) as u8,
                        (units_r.skip(1)[0] % 0x100) as u8,
                    ] + units_be_bytes(units_r.skip(1).skip(1)));
                    assert(out@ + units_be_bytes(utf16_units(cps@.skip(i + 1))) =~= out0
                        + units_be_bytes(units_r));
                } else {
                    assert(units_le_bytes(units_r) == seq![
                        (units_r[0] % 0x100) as u8,
                        (units_r[0] / 0x100) as u8,
                    ] + units_le_bytes(units_r.skip(1)));
                    assert(units_le_bytes(units_r.skip(1)) == seq![
                        (units_r.skip(1)[0] % 0x100) as u8,
                        (units_r.skip(1)[0] / 0x100) as u8,
                    ] + units_le_bytes(units_r.skip(1).skip(1)));
                    assert(out@ + units_le_bytes(utf16_units(cps@.skip(i + 1))) =~= out0
                        + units_le_bytes(units_r));
                }
            }
        }
        i += 1;
    }
    proof {
        assert(cps@.skip(n as int) =~= Seq::<u32>::empty());
        let e16 = utf16_units(Seq::<u32>::empty());
        assert(e16 =~= Seq::<u16>::empty());
        if big {
            assert(out@ + units_be_bytes(e16) =~= out@);
        } else {
            assert(out@ + units_le_bytes(e16) =~= out@);
        }
    }
    out
}

/// Encode UTF-8 content as UTF-16LE.
pub fn encode_utf16le(content: &[u8]) -> (r: Result<Vec<u8>, EncodingError>)
    ensures
        match r {
            Ok(v) => transcoded(content@, Encoding::Utf16Le) == Some(v@),
            Err(e) => e == EncodingError::BinaryFile && transcoded(
                content@,
                Encoding::Utf16Le,
            ) is None,
        },
{
    let cps = match utf8_to_cps(content) {
        Ok(v) => v,
        Err(e) => {
            return Err(e);
        },
    };
    proof {
        lemma_utf8_cps_scalar(content@);
    }
    Ok(cps_to_utf16(&cps, false))
}

/// Encode UTF-8 content as UTF-16BE.
pub fn encode_utf16be(content: &[u8]) -> (r: Result<Vec<u8>, EncodingError>)
    ensures
        match r {
            Ok(v) => transcoded(content@, Encoding::Utf16Be) == Some(v@),
            Err(e) => e == EncodingError::BinaryFile && transcoded(
                content@,
                Encoding::Utf16Be,
            ) is None,
        },
{
    let cps = match utf8_to_cps(content) {
        Ok(v) => v,
        Err(e) => {
            return Err(e);
        },
    };
    proof {
        lemma_utf8_cps_scalar(content@);
    }
    Ok(cps_to_utf16(&cps, true))
}

/// Serialise code points as UTF-32 of the given endianness.
fn cps_to_utf32(cps: &Vec<u32>, big: bool) -> (r: Vec<u8>)
    ensures
        r@ == if big {
            cps_be32_bytes(cps@)
        } else {
            cps_le32_bytes(cps@)
        },
{
    let n = cps.len();
    let mut out: Vec<u8> = Vec::new();
    let mut i: usize = 0;
    proof {
        assert(cps@.skip(0) =~= cps@);
    }
    while i < n
        invariant
            n == cps@.len(),
            i <= n,
            ({
                let whole = if big {
                    cps_be32_bytes(cps@)
                } else {
                    cps_le32_bytes(cps@)
                };
                let tail = if big {
                    cps_be32_bytes(cps@.skip(i as int))
                } else {
                    cps_le32_bytes(cps@.skip(i as int))
                };
                whole == out@ + tail
            }),
        decreases n - i,
    {
        let ghost rest = cps@.skip(i as int);
        let ghost out0 = out@;
        let c = cps[i];
        proof {
            assert(rest[0] == cps@[i as int]);
            assert(rest.skip(1) =~= cps@.skip(i + 1));
        }
        if big {
            out.push(((c / 0x1000000) % 0x100) as u8);
            out.push(((c / 0x10000) % 0x100) as u8);
            out.push(((c / 0x100) % 0x100) as u8);
            out.push((c % 0x100) as u8);
            proof {
                assert(out@ + cps_be32_bytes(cps@.skip(i + 1)) =~= out0 + cps_be32_bytes(rest));
            }
        } else {
            out.push((c % 0x100) as u8);
            out.push(((c / 0x100) % 0x100) as u8);
            out.push(((c / 0x10000) % 0x100) as u8);
            out.push(((c / 0x1000000) % 0x100) as u8);
            proof {
                assert(out@ + cps_le32_bytes(cps@.skip(i + 1)) =~= out0 + cps_le32_bytes(rest));
            }
        }
        i += 1;
    }
    proof {
        assert(cps@.skip(n as int) =~= Seq::<u32>::empty());
        if big {
            assert(out@ + cps_be32_bytes(Seq::<u32>::empty()) =~= out@);
        } else {
            assert(out@ + cps_le32_bytes(Seq::<u32>::empty()) =~= out@);
        }
    }
    out
}

/// Encode UTF-8 content as UTF-32LE.
pub fn encode_utf32le(content: &[u8]) -> (r: Result<Vec<u8>, EncodingError>)
    ensures
        match r {
            Ok(v) => transcoded(content@, Encoding::Utf32Le) == Some(v@),
            Err(e) => e == EncodingError::BinaryFile && transcoded(
                content@,
                Encoding::Utf32Le,
            ) is None,
        },
{
    let cps = match utf8_to_cps(content) {
        Ok(v) => v,
        Err(e) => {
            return Err(e);
        },
    };
    Ok(cps_to_utf32(&cps, false))
}

/// Encode UTF-8 content as UTF-32BE.
pub fn encode_utf32be(content: &[u8]) -> (r: Result<Vec<u8>, EncodingError>)
    ensures
        match r {
            Ok(v) => transcoded(content@, Encoding::Utf32Be) == Some(v@),
            Err(e) => e == EncodingError::BinaryFile && transcoded(
                content@,
                Encoding::Utf32Be,
            ) is None,
        },
{
    let cps = match utf8_to_cps(content) {
        Ok(v) => v,
        Err(e) => {
            return Err(e);
        },
    };
    Ok(cps_to_utf32(&cps, true))
}

/// Decode raw bytes of a detected encoding to UTF-8 content.
pub fn decode_to_utf8(raw: &[u8], encoding: Encoding) -> (r: Result<Vec<u8>, EncodingError>)
    ensures
        match r {
            Ok(v) => decoded_content(raw@, encoding) == Some(v@),
            Err(e) => e == EncodingError::BinaryFile && decoded_content(raw@, encoding) is None,
        },
{
    match encoding {
        Encoding::Utf8 => {
            match utf8_to_cps(raw) {
                Ok(_) => Ok(vstd::slice::slice_to_vec(raw)),
                Err(e) => Err(e),
            }
        },
        Encoding::Utf16Le => decode_utf16le(raw),
        Encoding::Utf16Be => decode_utf16be(raw),
        Encoding::Utf32Le => decode_utf32le(raw),
        Encoding::Utf32Be => decode_utf32be(raw),
        Encoding::Latin1 | Encoding::Windows1252 | Encoding::Latin9 => Ok(
            decode_latin(raw, encoding),
        ),
        Encoding::Unknown => Err(EncodingError::BinaryFile),
    }
}

/// Transcode UTF-8 content to the bytes of the given on-disk encoding.
pub fn transcode_to_encoding(content: &[u8], encoding: Encoding) -> (r: Result<
    Vec<u8>,
    EncodingError,
>)
    ensures
        match r {
            Ok(v) => transcoded(content@, encoding) == Some(v@),
            Err(e) => transcoded(content@, encoding) is None && e == encode_error_kind(
                content@,
                encoding,
            ),
        },
{
    match encoding {
        Encoding::Utf8 => Ok(vstd::slice::slice_to_vec(content)),
        Encoding::Utf16Le => encode_utf16le(content),
        Encoding::Utf16Be => encode_utf16be(content),
        Encoding::Utf32Le => encode_utf32le(content),
        Encoding::Utf32Be => encode_utf32be(content),
        Encoding::Latin1 | Encoding::Windows1252 | Encoding::Latin9 => encode_latin(
            content,
            encoding,
        ),
        Encoding::Unknown => Err(EncodingError::BinaryFile),
    }
}

} // verus!
