//! End-of-line detection, normalisation to LF, and restoration on save.

use vstd::prelude::*;

verus! {

/// The detected end-of-line convention of a byte stream.
#[derive(Debug, Clone, Copy, PartialEq, Eq, Structural)]
pub enum EolType {
    /// Line Feed (Unix) - `\n`
    Lf,
    /// Carriage Return + Line Feed (Windows) - `\r\n`
    Crlf,
    /// Carriage Return (old macOS) - `\r`
    Cr,
    /// Mixed endings; stored and restored as LF.
    Mixed,
}

pub const CR: u8 = 13;
pub const LF: u8 = 10;

/// Number of `\r\n` pairs, scanning left to right and consuming each pair
/// as a unit.
pub open spec fn crlf_count(s: Seq<u8>) -> nat
    decreases s.len(),
{
    if s.len() == 0 {
        0
    } else if s[0] == CR && s.len() >= 2 && s[1] == LF {
        1 + crlf_count(s.skip(2))
    } else {
        crlf_count(s.skip(1))
    }
}

/// Number of lone `\n` bytes (not preceded by `\r`).
pub open spec fn lone_lf_count(s: Seq<u8>) -> nat
    decreases s.len(),
{
    if s.len() == 0 {
        0
    } else if s[0] == CR && s.len() >= 2 && s[1] == LF {
        lone_lf_count(s.skip(2))
    } else if s[0] == LF {
        1 + lone_lf_count(s.skip(1))
    } else {
        lone_lf_count(s.skip(1))
    }
}

/// Number of lone `\r` bytes (not followed by `\n`).
pub open spec fn lone_cr_count(s: Seq<u8>) -> nat
    decreases s.len(),
{
    if s.len() == 0 {
        0
    } else if s[0] == CR && s.len() >= 2 && s[1] == LF {
        lone_cr_count(s.skip(2))
    } else if s[0] == CR {
        1 + lone_cr_count(s.skip(1))
    } else {
        lone_cr_count(s.skip(1))
    }
}

/// The predominant line ending: the majority wins; ties resolve to
/// CRLF over LF over CR; no line endings at all default to LF.
pub open spec fn eol_of(s: Seq<u8>) -> EolType {
    let c = crlf_count(s);
    let l = lone_lf_count(s);
    let r = lone_cr_count(s);
    if c + l + r == 0 {
        EolType::Lf
    } else if c >= l && c >= r {
        EolType::Crlf
    } else if l >= r {
        EolType::Lf
    } else {
        EolType::Cr
    }
}

/// The stream with every `\r\n` and every lone `\r` replaced by `\n`.
pub open spec fn normalized(s: Seq<u8>) -> Seq<u8>
    decreases s.len(),
{
    if s.len() == 0 {
        Seq::empty()
    } else if s[0] == CR && s.len() >= 2 && s[1] == LF {
        seq![LF] + normalized(s.skip(2))
    } else if s[0] == CR {
        seq![LF] + normalized(s.skip(1))
    } else {
        seq![s[0]] + normalized(s.skip(1))
    }
}

/// The normalised stream with every `\n` replaced by the given marker;
/// LF and Mixed restore as LF, that is, unchanged.
pub open spec fn restored(s: Seq<u8>, eol: EolType) -> Seq<u8>
    decreases s.len(),
{
    if s.len() == 0 {
        Seq::empty()
    } else {
        let head: Seq<u8> = if s[0] == LF {
            match eol {
                EolType::Crlf => seq![CR, LF],
                EolType::Cr => seq![CR],
                EolType::Lf => seq![LF],
                EolType::Mixed => seq![LF],
            }
        } else {
            seq![s[0]]
        };
        head + restored(s.skip(1), eol)
    }
}

/// Detect the predominant end-of-line type in the given bytes.
pub fn detect_eol(bytes: &[u8]) -> (r: EolType)
    ensures
        r == eol_of(bytes@),
{
    let n = bytes.len();
    let mut lf_count: u64 = 0;
    let mut crlf_count_x: u64 = 0;
    let mut cr_count: u64 = 0;
    let mut i: usize = 0;
    proof {
        assert(bytes@.skip(0) =~= bytes@);
    }
    while i < n
        invariant
            n == bytes@.len(),
            i <= n,
            lf_count + crlf_count_x + cr_count <= i,
            crlf_count(bytes@) == crlf_count_x + crlf_count(bytes@.skip(i as int)),
            lone_lf_count(bytes@) == lf_count + lone_lf_count(bytes@.skip(i as int)),
            lone_cr_count(bytes@) == cr_count + lone_cr_count(bytes@.skip(i as int)),
        decreases n - i,
    {
        let ghost rest = bytes@.skip(i as int);
        let b = bytes[i];
        proof {
            assert(rest[0] == bytes@[i as int]);
            assert(rest.len() == n - i);
        }
        if b == CR && i + 1 < n && bytes[i + 1] == LF {
            proof {
                assert(rest[1] == bytes@[i + 1]);
                assert(rest.skip(2) =~= bytes@.skip(i + 2));
            }
            crlf_count_x += 1;
            i += 2;
        } else if b == LF {
            proof {
                assert(rest.skip(1) =~= bytes@.skip(i + 1));
                assert(!(rest[0] == CR && rest.len() >= 2 && rest[1] == LF));
            }
            lf_count += 1;
            i += 1;
        } else if b == CR {
            proof {
                assert(rest.skip(1) =~= bytes@.skip(i + 1));
                if rest.len() >= 2 && rest[1] == LF {
                    assert(bytes@[i + 1] == LF);
                }
            }
            cr_count += 1;
            i += 1;
        } else {
            proof {
                assert(rest.skip(1) =~= bytes@.skip(i + 1));
            }
            i += 1;
        }
    }
    proof {
        assert(bytes@.skip(n as int) =~= Seq::<u8>::empty());
    }
    let total = lf_count + crlf_count_x + cr_count;
    if total == 0 {
        EolType::Lf
    } else if crlf_count_x >= lf_count && crlf_count_x >= cr_count {
        EolType::Crlf
    } else if lf_count >= cr_count {
        EolType::Lf
    } else {
        EolType::Cr
    }
}

/// Normalise end-of-lines to LF and return the original type.
pub fn normalize_eol(bytes: &[u8]) -> (r: (Vec<u8>, EolType))
    ensures
        r.0@ == normalized(bytes@),
        r.1 == eol_of(bytes@),
{
    let original_eol = detect_eol(bytes);
    let n = bytes.len();
    let mut result: Vec<u8> = Vec::new();
    let mut i: usize = 0;
    proof {
        assert(bytes@.skip(0) =~= bytes@);
        assert(Seq::<u8>::empty() + normalized(bytes@) =~= normalized(bytes@));
    }
    while i < n
        invariant
            n == bytes@.len(),
            i <= n,
            normalized(bytes@) == result@ + normalized(bytes@.skip(i as int)),
        decreases n - i,
    {
        let ghost rest = bytes@.skip(i as int);
        let ghost acc0 = result@;
        let b = bytes[i];
        proof {
            assert(rest[0] == bytes@[i as int]);
            assert(rest.len() == n - i);
        }
        if b == CR && i + 1 < n && bytes[i + 1] == LF {
            proof {
                assert(rest[1] == bytes@[i + 1]);
                assert(rest.skip(2) =~= bytes@.skip(i + 2));
                assert(acc0 + (seq![LF] + normalized(bytes@.skip(i + 2))) =~= acc0.push(LF)
                    + normalized(bytes@.skip(i + 2)));
            }
            result.push(LF);
            i += 2;
        } else if b == CR {
            proof {
                assert(rest.skip(1) =~= bytes@.skip(i + 1));
                assert(acc0 + (seq![LF] + normalized(bytes@.skip(i + 1))) =~= acc0.push(LF)
                    + normalized(bytes@.skip(i + 1)));
            }
            result.push(LF);
            i += 1;
        } else {
            proof {
                assert(rest.skip(1) =~= bytes@.skip(i + 1));
                assert(acc0 + (seq![bytes@[i as int]] + normalized(bytes@.skip(i + 1)))
                    =~= acc0.push(bytes@[i as int]) + normalized(bytes@.skip(i + 1)));
            }
            result.push(b);
            i += 1;
        }
    }
    proof {
        assert(bytes@.skip(n as int) =~= Seq::<u8>::empty());
        assert(result@ + normalized(bytes@.skip(n as int)) =~= result@);
    }
    (result, original_eol)
}

/// Restore the original end-of-line type to normalised content.
pub fn restore_eol(normalized_bytes: &[u8], original_eol: EolType) -> (r: Vec<u8>)
    ensures
        r@ == restored(normalized_bytes@, original_eol),
{
    let n = normalized_bytes.len();
    let mut result: Vec<u8> = Vec::new();
    let mut i: usize = 0;
    proof {
        assert(normalized_bytes@.skip(0) =~= normalized_bytes@);
        assert(Seq::<u8>::empty() + restored(normalized_bytes@, original_eol) =~= restored(
            normalized_bytes@,
            original_eol,
        ));
    }
    while i < n
        invariant
            n == normalized_bytes@.len(),
            i <= n,
            restored(normalized_bytes@, original_eol) == result@ + restored(
                normalized_bytes@.skip(i as int),
                original_eol,
            ),
        decreases n - i,
    {
        let ghost rest = normalized_bytes@.skip(i as int);
        let ghost acc0 = result@;
        let b = normalized_bytes[i];
        proof {
            assert(rest[0] == normalized_bytes@[i as int]);
            assert(rest.skip(1) =~= normalized_bytes@.skip(i + 1));
        }
        if b == LF {
            match original_eol {
                EolType::Crlf => {
                    result.push(CR);
                    result.push(LF);
                    proof {
                        assert(acc0 + (seq![CR, LF] + restored(
                            normalized_bytes@.skip(i + 1),
                            original_eol,
                        )) =~= result@ + restored(normalized_bytes@.skip(i + 1), original_eol));
                    }
                },
                EolType::Cr => {
                    result.push(CR);
                    proof {
                        assert(acc0 + (seq![CR] + restored(
                            normalized_bytes@.skip(i + 1),
                            original_eol,
                        )) =~= result@ + restored(normalized_bytes@.skip(i + 1), original_eol));
                    }
                },
                _ => {
                    result.push(LF);
                    proof {
                        assert(acc0 + (seq![LF] + restored(
                            normalized_bytes@.skip(i + 1),
                            original_eol,
                        )) =~= result@ + restored(normalized_bytes@.skip(i + 1), original_eol));
                    }
                },
            }
        } else {
            result.push(b);
            proof {
                assert(acc0 + (seq![normalized_bytes@[i as int]] + restored(
                    normalized_bytes@.skip(i + 1),
                    original_eol,
                )) =~= result@ + restored(normalized_bytes@.skip(i + 1), original_eol));
            }
        }
        i += 1;
    }
    proof {
        assert(normalized_bytes@.skip(n as int) =~= Seq::<u8>::empty());
        assert(result@ + restored(normalized_bytes@.skip(n as int), original_eol) =~= result@);
    }
    result
}

/// A stream whose every line break is a `\r\n` pair normalises to LF and
/// restores, with CRLF, to exactly itself.
pub proof fn lemma_crlf_round_trip(s: Seq<u8>)
    requires
        lone_lf_count(s) == 0,
        lone_cr_count(s) == 0,
    ensures
        restored(normalized(s), EolType::Crlf) == s,
    decreases s.len(),
{
    if s.len() == 0 {
        assert(restored(normalized(s), EolType::Crlf) =~= s);
    } else if s[0] == CR && s.len() >= 2 && s[1] == LF {
        lemma_crlf_round_trip(s.skip(2));
        assert(normalized(s) == seq![LF] + normalized(s.skip(2)));
        assert(normalized(s)[0] == LF);
        assert(normalized(s).skip(1) =~= normalized(s.skip(2)));
        assert(seq![CR, LF] + s.skip(2) =~= s);
    } else {
        assert(s[0] != CR);
        assert(s[0] != LF);
        lemma_crlf_round_trip(s.skip(1));
        assert(normalized(s) == seq![s[0]] + normalized(s.skip(1)));
        assert(normalized(s)[0] == s[0]);
        assert(normalized(s).skip(1) =~= normalized(s.skip(1)));
        assert(seq![s[0]] + s.skip(1) =~= s);
    }
}

/// A stream whose every line break is a lone `\r` normalises to LF and
/// restores, with CR, to exactly itself.
pub proof fn lemma_cr_round_trip(s: Seq<u8>)
    requires
        lone_lf_count(s) == 0,
        crlf_count(s) == 0,
    ensures
        restored(normalized(s), EolType::Cr) == s,
    decreases s.len(),
{
    if s.len() == 0 {
        assert(restored(normalized(s), EolType::Cr) =~= s);
    } else {
        assert(!(s[0] == CR && s.len() >= 2 && s[1] == LF));
        assert(s[0] != LF);
        lemma_cr_round_trip(s.skip(1));
        if s[0] == CR {
            assert(normalized(s) == seq![LF] + normalized(s.skip(1)));
            assert(normalized(s)[0] == LF);
            assert(normalized(s).skip(1) =~= normalized(s.skip(1)));
            assert(seq![CR] + s.skip(1) =~= s);
        } else {
            assert(normalized(s) == seq![s[0]] + normalized(s.skip(1)));
            assert(normalized(s)[0] == s[0]);
            assert(normalized(s).skip(1) =~= normalized(s.skip(1)));
            assert(seq![s[0]] + s.skip(1) =~= s);
        }
    }
}

/// A stream with no `\r` at all is already normalised, and restoring it as
/// LF leaves it unchanged: such a load-save cycle is byte-identical.
pub proof fn lemma_lf_round_trip(s: Seq<u8>)
    requires
        crlf_count(s) == 0,
        lone_cr_count(s) == 0,
    ensures
        normalized(s) == s,
        restored(s, EolType::Lf) == s,
    decreases s.len(),
{
    if s.len() == 0 {
        assert(normalized(s) =~= s);
        assert(restored(s, EolType::Lf) =~= s);
    } else {
        assert(!(s[0] == CR && s.len() >= 2 && s[1] == LF));
        assert(s[0] != CR);
        lemma_lf_round_trip(s.skip(1));
        assert(normalized(s) == seq![s[0]] + normalized(s.skip(1)));
        assert(seq![s[0]] + s.skip(1) =~= s);
        assert(restored(s, EolType::Lf) == seq![s[0]] + restored(s.skip(1), EolType::Lf));
    }
}

} // verus!
