//! Swap files for crash recovery: the plain-text header format (key=value
//! lines, a separator, then the raw buffer), and the bookkeeping that
//! decides when a swap is due.  Writing the bytes to disk is the caller's
//! business.

use vstd::prelude::*;

verus! {

/// Errors of swap handling.
#[derive(Debug, Clone, PartialEq, Eq)]
pub enum SwapError {
    Io(String),
    Serialization(String),
    Deserialization(String),
    PathError(String),
    RecoveryFailed(String),
}

/// Errors of draft handling.
#[derive(Debug, Clone, PartialEq, Eq)]
pub enum DraftError {
    Io(String),
    UuidError(String),
    PathError(String),
}

pub type SwapResult<T> = Result<T, SwapError>;

pub type DraftResult<T> = Result<T, DraftError>;

/// Configuration for swap behaviour.  Directories are paths the caller
/// owns; times are in the units their names say.
#[derive(Debug, Clone)]
pub struct SwapConfig {
    /// Directory for swap files.
    pub swap_dir: String,
    /// Directory for draft files.
    pub draft_dir: String,
    /// Save a swap after this many edits.
    pub edits_threshold: usize,
    /// Save a swap after this idle time, in milliseconds.
    pub idle_timeout_ms: u64,
    /// Include the cursor position in the swap.
    pub save_cursor: bool,
    /// Include the viewport state in the swap.
    pub save_viewport: bool,
    /// Swap files older than this many days are cleaned up.
    pub max_age_days: u64,
}

/// Status of a swap file.
#[derive(Debug, Clone, Copy, PartialEq, Eq, Structural)]
pub enum SwapStatus {
    /// Swap file is current and valid.
    Current,
    /// Swap file exists but may be stale.
    Stale,
    /// Swap file does not exist.
    Missing,
    /// Swap file is corrupted.
    Corrupted,
}

/// Information about a swap file; times are seconds since the epoch.
#[derive(Debug, Clone)]
pub struct SwapFile {
    pub original_path: String,
    pub swap_path: String,
    pub created: u64,
    pub modified: u64,
    pub status: SwapStatus,
    pub edit_count: usize,
}

/// Cursor position information.
#[derive(Debug, Clone, Copy, PartialEq, Eq, Structural)]
pub struct CursorPosition {
    pub line: u64,
    pub column: u64,
    pub offset: u64,
}

/// Viewport state information.
#[derive(Debug, Clone, Copy, PartialEq, Eq, Structural)]
pub struct ViewportState {
    pub top_line: u64,
    pub visible_lines: u64,
    pub horizontal_offset: u64,
}

/// One swap record: the buffer bytes and the header data around them.
#[derive(Debug, Clone, PartialEq, Eq)]
pub struct SwapContent {
    /// The buffer content, raw.
    pub content: Vec<u8>,
    /// The path of the original file; empty for an untitled buffer.
    pub original_path: Vec<u8>,
    pub edit_count: u64,
    pub cursor_position: Option<CursorPosition>,
    pub viewport_state: Option<ViewportState>,
    /// Seconds since the epoch.
    pub timestamp: u64,
}

/// The canonical decimal digits of a number, no leading zeros.
pub open spec fn dec_repr(n: nat) -> Seq<u8>
    decreases n,
{
    if n < 10 {
        seq![(48 + n) as u8]
    } else {
        dec_repr(n / 10).push((48 + n % 10) as u8)
    }
}

/// The decimal digits of a `u64`, canonical form.
pub fn u64_to_dec(n: u64) -> (r: Vec<u8>)
    ensures
        r@ == dec_repr(n as nat),
    decreases n,
{
    if n < 10 {
        let v = vec![(48 + n) as u8];
        proof {
            assert(v@ =~= dec_repr(n as nat));
        }
        v
    } else {
        let mut v = u64_to_dec(n / 10);
        v.push((48 + n % 10) as u8);
        v
    }
}

/// The value a digit string denotes.
pub open spec fn dec_val(s: Seq<u8>) -> int
    decreases s.len(),
{
    if s.len() == 0 {
        0
    } else {
        dec_val(s.drop_last()) * 10 + (s.last() - 48)
    }
}

/// All bytes of a digit string.
pub open spec fn all_digits(s: Seq<u8>) -> bool {
    forall|k: int| 0 <= k < s.len() ==> 48 <= #[trigger] s[k] <= 57
}

/// The canonical decimal form is non-empty, all digits, has no leading
/// zero, and denotes the number it was built from.
pub proof fn lemma_dec_repr_shape(n: nat)
    ensures
        dec_repr(n).len() >= 1,
        all_digits(dec_repr(n)),
        dec_repr(n).len() > 1 ==> dec_repr(n)[0] != 48,
        dec_repr(n)[0] == 48 ==> n == 0,
        dec_val(dec_repr(n)) == n,
    decreases n,
{
    if n < 10 {
        assert(dec_repr(n) =~= seq![(48 + n) as u8]);
        assert(dec_repr(n).drop_last() =~= Seq::<u8>::empty());
        assert(dec_val(Seq::<u8>::empty()) == 0);
        assert(dec_val(dec_repr(n)) == 0 * 10 + (48 + n - 48));
    } else {
        lemma_dec_repr_shape(n / 10);
        assert(dec_repr(n) == dec_repr(n / 10).push((48 + n % 10) as u8));
        assert(dec_repr(n)[0] == dec_repr(n / 10)[0]);
        assert(dec_repr(n).drop_last() =~= dec_repr(n / 10));
        assert forall|k: int| 0 <= k < dec_repr(n).len() implies 48 <= #[trigger] dec_repr(
            n,
        )[k] <= 57 by {
            if k < dec_repr(n).len() - 1 {
                assert(dec_repr(n)[k] == dec_repr(n / 10)[k]);
            }
        }
    }
}

/// A digit string denotes a non-negative value.
pub proof fn lemma_dec_val_nonneg(s: Seq<u8>)
    requires
        all_digits(s),
    ensures
        dec_val(s) >= 0,
    decreases s.len(),
{
    if s.len() > 0 {
        assert(all_digits(s.drop_last()));
        lemma_dec_val_nonneg(s.drop_last());
    }
}

/// A digit string's value is no smaller than any of its prefixes' values.
pub proof fn lemma_dec_val_prefix(s: Seq<u8>, m: int)
    requires
        all_digits(s),
        0 <= m <= s.len(),
    ensures
        dec_val(s) >= dec_val(s.take(m)) >= 0,
    decreases s.len(),
{
    if m == s.len() {
        assert(s.take(m) =~= s);
        lemma_dec_val_nonneg(s);
    } else {
        assert(all_digits(s.drop_last()));
        assert(s.drop_last().take(m) =~= s.take(m));
        lemma_dec_val_prefix(s.drop_last(), m);
        lemma_dec_val_nonneg(s.drop_last());
        assert(dec_val(s) == dec_val(s.drop_last()) * 10 + (s.last() - 48));
        assert(dec_val(s) >= dec_val(s.drop_last()));
    }
}

/// The header bytes `timestamp=`.
pub open spec fn spec_ts_label() -> Seq<u8> {
    seq![116u8, 105u8, 109u8, 101u8, 115u8, 116u8, 97u8, 109u8, 112u8, 61u8]
}

fn ts_label() -> (r: Vec<u8>)
    ensures
        r@ == spec_ts_label(),
{
    let v = vec![116u8, 105u8, 109u8, 101u8, 115u8, 116u8, 97u8, 109u8, 112u8, 61u8];
    proof {
        assert(v@ =~= spec_ts_label());
    }
    v
}

/// The header bytes `edit_count=`.
pub open spec fn spec_ec_label_b() -> Seq<u8> {
    seq![101u8, 100u8, 105u8, 116u8, 95u8, 99u8, 111u8, 117u8, 110u8, 116u8, 61u8]
}

fn ec_label_b() -> (r: Vec<u8>)
    ensures
        r@ == spec_ec_label_b(),
{
    let v = vec![101u8, 100u8, 105u8, 116u8, 95u8, 99u8, 111u8, 117u8, 110u8, 116u8, 61u8];
    proof {
        assert(v@ =~= spec_ec_label_b());
    }
    v
}

/// The header bytes `path=`.
pub open spec fn spec_path_label() -> Seq<u8> {
    seq![112u8, 97u8, 116u8, 104u8, 61u8]
}

fn path_label() -> (r: Vec<u8>)
    ensures
        r@ == spec_path_label(),
{
    let v = vec![112u8, 97u8, 116u8, 104u8, 61u8];
    proof {
        assert(v@ =~= spec_path_label());
    }
    v
}

/// The header bytes `cursor=`.
pub open spec fn spec_cursor_label() -> Seq<u8> {
    seq![99u8, 117u8, 114u8, 115u8, 111u8, 114u8, 61u8]
}

fn cursor_label() -> (r: Vec<u8>)
    ensures
        r@ == spec_cursor_label(),
{
    let v = vec![99u8, 117u8, 114u8, 115u8, 111u8, 114u8, 61u8];
    proof {
        assert(v@ =~= spec_cursor_label());
    }
    v
}

/// The header bytes `viewport=`.
pub open spec fn spec_viewport_label() -> Seq<u8> {
    seq![118u8, 105u8, 101u8, 119u8, 112u8, 111u8, 114u8, 116u8, 61u8]
}

fn viewport_label() -> (r: Vec<u8>)
    ensures
        r@ == spec_viewport_label(),
{
    let v = vec![118u8, 105u8, 101u8, 119u8, 112u8, 111u8, 114u8, 116u8, 61u8];
    proof {
        assert(v@ =~= spec_viewport_label());
    }
    v
}

/// The header bytes `---CONTENT---`.
pub open spec fn spec_sep_label() -> Seq<u8> {
    seq![45u8, 45u8, 45u8, 67u8, 79u8, 78u8, 84u8, 69u8, 78u8, 84u8, 45u8, 45u8, 45u8]
}

fn sep_label() -> (r: Vec<u8>)
    ensures
        r@ == spec_sep_label(),
{
    let v = vec![45u8, 45u8, 45u8, 67u8, 79u8, 78u8, 84u8, 69u8, 78u8, 84u8, 45u8, 45u8, 45u8];
    proof {
        assert(v@ =~= spec_sep_label());
    }
    v
}

/// A swap record has a sound header: its path holds no line break and the
/// values fit the canonical format.
pub open spec fn swap_wf(c: SwapContent) -> bool {
    forall|k: int| 0 <= k < c.original_path@.len() ==> c.original_path@[k] != 10u8
}

/// The serialised form of a cursor line's value.
pub open spec fn cursor_repr(c: Option<CursorPosition>) -> Seq<u8> {
    match c {
        None => Seq::empty(),
        Some(p) => dec_repr(p.line as nat) + seq![44u8] + dec_repr(p.column as nat) + seq![44u8]
            + dec_repr(p.offset as nat),
    }
}

/// The serialised form of a viewport line's value.
pub open spec fn viewport_repr(v: Option<ViewportState>) -> Seq<u8> {
    match v {
        None => Seq::empty(),
        Some(p) => dec_repr(p.top_line as nat) + seq![44u8] + dec_repr(p.visible_lines as nat)
            + seq![44u8] + dec_repr(p.horizontal_offset as nat),
    }
}

/// The on-disk swap format: `key=value` header lines in fixed order, a
/// separator line, then the raw content.
pub open spec fn serialized_swap(c: SwapContent) -> Seq<u8> {
    spec_ts_label() + dec_repr(c.timestamp as nat) + seq![10u8] + spec_ec_label_b() + dec_repr(
        c.edit_count as nat,
    ) + seq![10u8] + spec_path_label() + c.original_path@ + seq![10u8] + spec_cursor_label()
        + cursor_repr(c.cursor_position) + seq![10u8] + spec_viewport_label() + viewport_repr(
        c.viewport_state,
    ) + seq![10u8] + spec_sep_label() + seq![10u8] + c.content@
}

/// Serialise a swap record to its plain-text format.
#[verifier::rlimit(100)]
pub fn serialize_swap_content(content: &SwapContent) -> (r: Vec<u8>)
    ensures
        r@ == serialized_swap(*content),
{
    let mut out: Vec<u8> = Vec::new();
    let lab_ts = ts_label();
    out.extend_from_slice(lab_ts.as_slice());
    let mut ts = u64_to_dec(content.timestamp);
    out.append(&mut ts);
    out.push(10);
    let lab_ec = ec_label_b();
    out.extend_from_slice(lab_ec.as_slice());
    let mut ec = u64_to_dec(content.edit_count);
    out.append(&mut ec);
    out.push(10);
    let lab_path = path_label();
    out.extend_from_slice(lab_path.as_slice());
    out.extend_from_slice(content.original_path.as_slice());
    out.push(10);
    let lab_cur = cursor_label();
    out.extend_from_slice(lab_cur.as_slice());
    match &content.cursor_position {
        None => {},
        Some(p) => {
            let mut a = u64_to_dec(p.line);
            out.append(&mut a);
            out.push(44);
            let mut b = u64_to_dec(p.column);
            out.append(&mut b);
            out.push(44);
            let mut c = u64_to_dec(p.offset);
            out.append(&mut c);
        },
    }
    out.push(10);
    let lab_vp = viewport_label();
    out.extend_from_slice(lab_vp.as_slice());
    match &content.viewport_state {
        None => {},
        Some(p) => {
            let mut a = u64_to_dec(p.top_line);
            out.append(&mut a);
            out.push(44);
            let mut b = u64_to_dec(p.visible_lines);
            out.append(&mut b);
            out.push(44);
            let mut c = u64_to_dec(p.horizontal_offset);
            out.append(&mut c);
        },
    }
    out.push(10);
    let lab_sep = sep_label();
    out.extend_from_slice(lab_sep.as_slice());
    out.push(10);
    out.extend_from_slice(content.content.as_slice());
    proof {
        assert(out@ =~= serialized_swap(*content));
    }
    out
}

/// Match a literal at a position.
fn starts_with_at(data: &[u8], i: usize, lit: &[u8]) -> (r: bool)
    requires
        i <= data@.len(),
    ensures
        r == (i + lit@.len() <= data@.len() && data@.subrange(i as int, i + lit@.len()) == lit@),
{
    let m = lit.len();
    let n = data.len();
    if n - i < m {
        return false;
    }
    let mut k: usize = 0;
    while k < m
        invariant
            m == lit@.len(),
            n == data@.len(),
            i + m <= n,
            k <= m,
            forall|j: int| 0 <= j < k ==> data@[i + j] == lit@[j],
        decreases m - k,
    {
        if data[i + k] != lit[k] {
            proof {
                assert(data@.subrange(i as int, i + lit@.len())[k as int] != lit@[k as int]);
            }
            return false;
        }
        k += 1;
    }
    proof {
        assert(data@.subrange(i as int, i + lit@.len()) =~= lit@);
    }
    true
}

/// Whether the bytes `[i, j)` are exactly the canonical decimal form of
/// `v`, ending the digit run (the next byte, if any, is no digit).
pub open spec fn dec_at(data: Seq<u8>, i: int, v: u64, j: int) -> bool {
    &&& 0 <= i <= j <= data.len()
    &&& data.subrange(i, j) == dec_repr(v as nat)
    &&& (j == data.len() || !(48 <= data[j] <= 57))
}

/// Parse canonical decimal digits from `i` up to (not including) the next
/// byte that is no digit.  Returns the value and the position after the
/// digits; rejects empty digits, leading zeros and overflow — and is
/// complete: wherever a canonical `u64` form sits at `i`, it is returned.
#[verifier::rlimit(100)]
fn parse_dec(data: &[u8], i: usize) -> (r: Option<(u64, usize)>)
    requires
        i <= data@.len(),
    ensures
        match r {
            Some((v, j)) => {
                &&& i < j <= data@.len()
                &&& data@.subrange(i as int, j as int) == dec_repr(v as nat)
                &&& (j < data@.len() ==> !(48 <= data@[j as int] <= 57))
            },
            None => true,
        },
        forall|v: u64, j: int| dec_at(data@, i as int, v, j) ==> r == Some((v, j as usize)),
{
    let n = data.len();
    if i >= n || !(data[i] >= 48 && data[i] <= 57) {
        proof {
            assert forall|v: u64, j: int| dec_at(data@, i as int, v, j) implies false by {
                lemma_dec_repr_shape(v as nat);
                assert(data@.subrange(i as int, j)[0] == data@[i as int]);
            }
        }
        return None;
    }
    if data[i] == 48 {
        // canonical zero: a single digit, not followed by another digit
        if i + 1 < n && data[i + 1] >= 48 && data[i + 1] <= 57 {
            proof {
                assert forall|v: u64, j: int| dec_at(data@, i as int, v, j) implies false by {
                    lemma_dec_repr_shape(v as nat);
                    assert(data@.subrange(i as int, j)[0] == data@[i as int]);
                    assert(v == 0);
                    assert(j == i + 1);
                }
            }
            return None;
        }
        proof {
            assert(data@.subrange(i as int, i + 1) =~= dec_repr(0));
            assert forall|v: u64, j: int| dec_at(data@, i as int, v, j) implies v == 0 && j == i
                + 1 by {
                lemma_dec_repr_shape(v as nat);
                assert(data@.subrange(i as int, j)[0] == data@[i as int]);
            }
        }
        return Some((0, i + 1));
    }
    let mut v: u64 = 0;
    let mut j: usize = i;
    while j < n && data[j] >= 48 && data[j] <= 57
        invariant
            n == data@.len(),
            i <= j <= n,
            j > i ==> data@.subrange(i as int, j as int) == dec_repr(v as nat) && v > 0,
            j == i ==> v == 0,
            data@[i as int] != 48,
            48 <= data@[i as int] <= 57,
            forall|k: int| i <= k < j ==> 48 <= #[trigger] data@[k] <= 57,
        decreases n - j,
    {
        let d = data[j] - 48;
        if v > (u64::MAX - d as u64) / 10 {
            proof {
                assert forall|w: u64, jw: int| dec_at(data@, i as int, w, jw) implies false by {
                    lemma_dec_repr_shape(w as nat);
                    // every index up to and including the current one is a
                    // digit, so the canonical run must reach past it
                    assert(forall|k: int|
                        i <= k < jw ==> data@.subrange(i as int, jw)[k - i] == data@[k]);
                    assert(jw > j) by {
                        if jw <= j {
                            assert(48 <= data@[jw] <= 57);
                        }
                    }
                    let run = data@.subrange(i as int, jw);
                    assert(all_digits(run));
                    lemma_dec_val_prefix(run, j + 1 - i);
                    assert(run.take(j + 1 - i) =~= data@.subrange(i as int, j + 1));
                    assert(data@.subrange(i as int, j + 1) =~= data@.subrange(i as int, j as int).push(
                        data@[j as int],
                    ));
                    if j > i {
                        lemma_dec_repr_shape(v as nat);
                        assert(dec_val(data@.subrange(i as int, j as int)) == v);
                        assert(all_digits(data@.subrange(i as int, j as int)));
                        lemma_dec_val_nonneg(data@.subrange(i as int, j as int));
                    } else {
                        assert(data@.subrange(i as int, i as int) =~= Seq::<u8>::empty());
                        assert(dec_val(Seq::<u8>::empty()) == 0);
                    }
                    assert(data@.subrange(i as int, j + 1).drop_last() =~= data@.subrange(
                        i as int,
                        j as int,
                    ));
                    assert(data@.subrange(i as int, j + 1).last() == data@[j as int]);
                    assert(dec_val(data@.subrange(i as int, j + 1)) == dec_val(data@.subrange(
                        i as int,
                        j as int,
                    )) * 10 + (data@[j as int] - 48));
                    assert(dec_val(data@.subrange(i as int, j + 1)) == v * 10 + d);
                    assert(v * 10 + d > u64::MAX) by {
                        assert(v >= (u64::MAX - d as u64) / 10 + 1);
                        assert(((u64::MAX - d as u64) / 10 + 1) * 10 >= u64::MAX - d + 1) by (nonlinear_arith)
                            requires v >= 0 && 0 <= d <= 9,
                        ;
                        assert(v * 10 >= ((u64::MAX - d as u64) / 10 + 1) * 10) by (nonlinear_arith)
                            requires v >= (u64::MAX - d as u64) / 10 + 1,
                        ;
                    }
                    assert(w as int == dec_val(dec_repr(w as nat)));
                    assert(w as int == dec_val(run));
                    assert(w as int >= dec_val(data@.subrange(i as int, j + 1)));
                }
            }
            return None;
        }
        proof {
            if j > i {
                assert(dec_repr((v * 10 + d) as nat) == dec_repr(((v * 10 + d) / 10) as nat).push(
                    (48 + (v * 10 + d) % 10) as u8,
                ));
                assert((v * 10 + d) as nat / 10 == v as nat);
                assert((v * 10 + d) as nat % 10 == d as nat);
                assert(data@.subrange(i as int, j + 1 as int) =~= data@.subrange(
                    i as int,
                    j as int,
                ).push(data@[j as int]));
            } else {
                assert(data@.subrange(i as int, i + 1 as int) =~= seq![data@[i as int]]);
            }
        }
        v = v * 10 + d as u64;
        j += 1;
    }
    proof {
        assert forall|w: u64, jw: int| dec_at(data@, i as int, w, jw) implies w == v && jw
            == j as int by {
            lemma_dec_repr_shape(w as nat);
            assert(forall|k: int|
                i <= k < jw ==> data@.subrange(i as int, jw)[k - i] == data@[k]);
            assert(jw == j as int) by {
                if jw < j {
                    assert(48 <= data@[jw] <= 57);
                } else if jw > j {
                    assert(data@.subrange(i as int, jw)[j - i] == data@[j as int]);
                    assert(48 <= data@[j as int] <= 57);
                }
            }
            assert(data@.subrange(i as int, jw) == data@.subrange(i as int, j as int));
            assert(dec_repr(w as nat) == dec_repr(v as nat));
            lemma_dec_repr_shape(v as nat);
            assert(w as int == dec_val(dec_repr(w as nat)));
        }
    }
    Some((v, j))
}

/// Whether the bytes `[i, j)` are exactly a canonical `x,y,z` triple,
/// ending the digit run.
pub open spec fn triple_at(data: Seq<u8>, i: int, x: u64, y: u64, z: u64, j: int) -> bool {
    &&& 0 <= i <= j <= data.len()
    &&& data.subrange(i, j) == dec_repr(x as nat) + seq![44u8] + dec_repr(y as nat) + seq![44u8]
        + dec_repr(z as nat)
    &&& (j == data.len() || !(48 <= data[j] <= 57))
}

/// Facts a canonical triple pins down: where each number sits and where
/// the commas are.
proof fn lemma_triple_layout(data: Seq<u8>, i: int, x: u64, y: u64, z: u64, j: int)
    requires
        triple_at(data, i, x, y, z, j),
    ensures
        ({
            let p1 = i + dec_repr(x as nat).len();
            let p2 = p1 + 1 + dec_repr(y as nat).len();
            &&& dec_at(data, i, x, p1)
            &&& p1 < j && data[p1] == 44u8
            &&& dec_at(data, p1 + 1, y, p2)
            &&& p2 < j && data[p2] == 44u8
            &&& dec_at(data, p2 + 1, z, j)
        }),
{
    let dx = dec_repr(x as nat);
    let dy = dec_repr(y as nat);
    let dz = dec_repr(z as nat);
    lemma_dec_repr_shape(x as nat);
    lemma_dec_repr_shape(y as nat);
    lemma_dec_repr_shape(z as nat);
    let p1 = i + dx.len();
    let p2 = p1 + 1 + dy.len();
    let whole = data.subrange(i, j);
    assert(whole == dx + seq![44u8] + dy + seq![44u8] + dz);
    assert(whole.len() == j - i);
    assert(whole.len() == dx.len() + 1 + dy.len() + 1 + dz.len());
    assert(forall|k: int| 0 <= k < j - i ==> #[trigger] whole[k] == data[i + k]);
    assert forall|k: int| 0 <= k < dx.len() implies #[trigger] data[i + k] == dx[k] by {
        assert(whole[k] == dx[k]);
    }
    assert(data.subrange(i, p1) =~= dx);
    assert(data[p1] == whole[dx.len() as int]);
    assert forall|m: int| 0 <= m < dy.len() implies #[trigger] data.subrange(p1 + 1, p2)[m]
        == dy[m] by {
        assert(whole[dx.len() + 1 + m] == dy[m]);
        assert(data[i + (dx.len() + 1 + m)] == whole[dx.len() + 1 + m]);
        assert(data.subrange(p1 + 1, p2)[m] == data[p1 + 1 + m]);
        assert(p1 + 1 + m == i + (dx.len() + 1 + m));
    }
    assert(data.subrange(p1 + 1, p2) =~= dy);
    assert(data[p2] == whole[dx.len() as int + 1 + dy.len() as int]);
    assert forall|m: int| 0 <= m < dz.len() implies #[trigger] data.subrange(p2 + 1, j)[m]
        == dz[m] by {
        assert(whole[dx.len() + 1 + dy.len() + 1 + m] == dz[m]);
        assert(data[i + (dx.len() + 1 + dy.len() + 1 + m)] == whole[dx.len() + 1 + dy.len() + 1
            + m]);
        assert(data.subrange(p2 + 1, j)[m] == data[p2 + 1 + m]);
        assert(p2 + 1 + m == i + (dx.len() + 1 + dy.len() + 1 + m));
    }
    assert(data.subrange(p2 + 1, j) =~= dz);
}

/// Parse a `a,b,c` triple of canonical decimals; complete on canonical
/// triples.
#[verifier::rlimit(100)]
fn parse_triple(data: &[u8], i: usize) -> (r: Option<(u64, u64, u64, usize)>)
    requires
        i <= data@.len(),
    ensures
        match r {
            Some((a, b, c, j)) => {
                &&& i < j <= data@.len()
                &&& data@.subrange(i as int, j as int) == dec_repr(a as nat) + seq![44u8]
                    + dec_repr(b as nat) + seq![44u8] + dec_repr(c as nat)
                &&& (j < data@.len() ==> !(48 <= data@[j as int] <= 57))
            },
            None => true,
        },
        forall|x: u64, y: u64, z: u64, j: int|
            triple_at(data@, i as int, x, y, z, j) ==> r == Some((x, y, z, j as usize)),
{
    let (a, p1) = match parse_dec(data, i) {
        Some(pair) => pair,
        None => {
            proof {
                assert forall|x: u64, y: u64, z: u64, j: int|
                    triple_at(data@, i as int, x, y, z, j) implies false by {
                    lemma_triple_layout(data@, i as int, x, y, z, j);
                }
            }
            return None;
        },
    };
    if p1 >= data.len() || data[p1] != 44 {
        proof {
            assert forall|x: u64, y: u64, z: u64, j: int|
                triple_at(data@, i as int, x, y, z, j) implies false by {
                lemma_triple_layout(data@, i as int, x, y, z, j);
            }
        }
        return None;
    }
    let (b, p2) = match parse_dec(data, p1 + 1) {
        Some(pair) => pair,
        None => {
            proof {
                assert forall|x: u64, y: u64, z: u64, j: int|
                    triple_at(data@, i as int, x, y, z, j) implies false by {
                    lemma_triple_layout(data@, i as int, x, y, z, j);
                }
            }
            return None;
        },
    };
    if p2 >= data.len() || data[p2] != 44 {
        proof {
            assert forall|x: u64, y: u64, z: u64, j: int|
                triple_at(data@, i as int, x, y, z, j) implies false by {
                lemma_triple_layout(data@, i as int, x, y, z, j);
            }
        }
        return None;
    }
    let (c, p3) = match parse_dec(data, p2 + 1) {
        Some(pair) => pair,
        None => {
            proof {
                assert forall|x: u64, y: u64, z: u64, j: int|
                    triple_at(data@, i as int, x, y, z, j) implies false by {
                    lemma_triple_layout(data@, i as int, x, y, z, j);
                }
            }
            return None;
        },
    };
    proof {
        assert(data@.subrange(i as int, p3 as int) =~= dec_repr(a as nat) + seq![44u8] + dec_repr(
            b as nat,
        ) + seq![44u8] + dec_repr(c as nat));
        assert forall|x: u64, y: u64, z: u64, j: int|
            triple_at(data@, i as int, x, y, z, j) implies (x, y, z, j) == (
            a,
            b,
            c,
            p3 as int,
        ) by {
            lemma_triple_layout(data@, i as int, x, y, z, j);
        }
    }
    Some((a, b, c, p3))
}

/// Reading lemma for the parser: a serialised record pins every region of
/// the bytes — each label, each canonical number with its closing line
/// break, the path, the positions, the separator and the content.
#[verifier::rlimit(100)]
proof fn lemma_swap_layout(data: Seq<u8>, c: SwapContent)
    requires
        swap_wf(c),
        data == serialized_swap(c),
    ensures
        ({
            let a = 10 + dec_repr(c.timestamp as nat).len() as int;
            let b = a + 12 + dec_repr(c.edit_count as nat).len() as int;
            let pe = b + 6 + c.original_path@.len() as int;
            let q = pe + 8 + cursor_repr(c.cursor_position).len() as int;
            let w = q + 10 + viewport_repr(c.viewport_state).len() as int;
            &&& data.len() == w + 15 + c.content@.len()
            &&& data.subrange(0, 10) == spec_ts_label()
            &&& dec_at(data, 10, c.timestamp, a)
            &&& data[a] == 10u8
            &&& data.subrange(a + 1, a + 12) == spec_ec_label_b()
            &&& dec_at(data, a + 12, c.edit_count, b)
            &&& data[b] == 10u8
            &&& data.subrange(b + 1, b + 6) == spec_path_label()
            &&& (forall|k: int| b + 6 <= k < pe ==> #[trigger] data[k] != 10u8)
            &&& data[pe] == 10u8
            &&& data.subrange(pe + 1, pe + 8) == spec_cursor_label()
            &&& (c.cursor_position is None ==> q == pe + 8)
            &&& (c.cursor_position is Some ==> triple_at(
                data,
                pe + 8,
                c.cursor_position.unwrap().line,
                c.cursor_position.unwrap().column,
                c.cursor_position.unwrap().offset,
                q,
            ) && 48 <= data[pe + 8] <= 57)
            &&& data[q] == 10u8
            &&& data.subrange(q + 1, q + 10) == spec_viewport_label()
            &&& (c.viewport_state is None ==> w == q + 10)
            &&& (c.viewport_state is Some ==> triple_at(
                data,
                q + 10,
                c.viewport_state.unwrap().top_line,
                c.viewport_state.unwrap().visible_lines,
                c.viewport_state.unwrap().horizontal_offset,
                w,
            ) && 48 <= data[q + 10] <= 57)
            &&& data[w] == 10u8
            &&& data.subrange(w + 1, w + 14) == spec_sep_label()
            &&& data[w + 14] == 10u8
        }),
{
    let dts = dec_repr(c.timestamp as nat);
    let dec = dec_repr(c.edit_count as nat);
    let cur = cursor_repr(c.cursor_position);
    let vp = viewport_repr(c.viewport_state);
    let a = 10 + dts.len() as int;
    let b = a + 12 + dec.len() as int;
    let pe = b + 6 + c.original_path@.len() as int;
    let q = pe + 8 + cur.len() as int;
    let w = q + 10 + vp.len() as int;
    lemma_dec_repr_shape(c.timestamp as nat);
    lemma_dec_repr_shape(c.edit_count as nat);
    assert(data == spec_ts_label() + dts + seq![10u8] + spec_ec_label_b() + dec + seq![10u8]
        + spec_path_label() + c.original_path@ + seq![10u8] + spec_cursor_label() + cur
        + seq![10u8] + spec_viewport_label() + vp + seq![10u8] + spec_sep_label() + seq![10u8]
        + c.content@);
    assert(data.len() == w + 15 + c.content@.len());
    assert(data.subrange(0, 10) =~= spec_ts_label());
    assert(data.subrange(10, a) =~= dts);
    assert(data[a] == 10u8);
    assert(data.subrange(a + 1, a + 12) =~= spec_ec_label_b());
    assert(data.subrange(a + 12, b) =~= dec);
    assert(data[b] == 10u8);
    assert(data.subrange(b + 1, b + 6) =~= spec_path_label());
    assert(data.subrange(b + 6, pe) =~= c.original_path@);
    assert forall|k: int| b + 6 <= k < pe implies #[trigger] data[k] != 10u8 by {
        assert(data.subrange(b + 6, pe as int)[k - (b + 6)] == data[k]);
        assert(c.original_path@[k - (b + 6)] != 10u8);
    }
    assert(data[pe] == 10u8);
    assert(data.subrange(pe + 1, pe + 8) =~= spec_cursor_label());
    assert(data.subrange(pe + 8, q) =~= cur);
    assert(data[q] == 10u8);
    match c.cursor_position {
        None => {
            assert(cur.len() == 0);
        },
        Some(p) => {
            lemma_dec_repr_shape(p.line as nat);
            assert(cur[0] == dec_repr(p.line as nat)[0]);
            assert(data[pe + 8] == cur[0]);
        },
    }
    assert(data.subrange(q + 1, q + 10) =~= spec_viewport_label());
    assert(data.subrange(q + 10, w) =~= vp);
    assert(data[w] == 10u8);
    match c.viewport_state {
        None => {
            assert(vp.len() == 0);
        },
        Some(p) => {
            lemma_dec_repr_shape(p.top_line as nat);
            assert(vp[0] == dec_repr(p.top_line as nat)[0]);
            assert(data[q + 10] == vp[0]);
        },
    }
    assert(data.subrange(w + 1, w + 14) =~= spec_sep_label());
    assert(data[w + 14] == 10u8);
}

/// Stitching lemma for the parser: when every region of `data` matches
/// the corresponding piece of the format, the whole is the serialised
/// record.
#[verifier::rlimit(100)]
proof fn lemma_swap_assemble(
    data: Seq<u8>,
    c: SwapContent,
    a: int,
    b: int,
    pe: int,
    q: int,
    w: int,
)
    requires
        10 <= a,
        a + 12 <= b,
        b + 6 <= pe,
        pe + 8 <= q,
        q + 10 <= w,
        w + 15 <= data.len(),
        data.subrange(0, 10) == spec_ts_label(),
        data.subrange(10, a) == dec_repr(c.timestamp as nat),
        data[a] == 10u8,
        data.subrange(a + 1, a + 12) == spec_ec_label_b(),
        data.subrange(a + 12, b) == dec_repr(c.edit_count as nat),
        data[b] == 10u8,
        data.subrange(b + 1, b + 6) == spec_path_label(),
        data.subrange(b + 6, pe) == c.original_path@,
        data[pe] == 10u8,
        data.subrange(pe + 1, pe + 8) == spec_cursor_label(),
        data.subrange(pe + 8, q) == cursor_repr(c.cursor_position),
        data[q] == 10u8,
        data.subrange(q + 1, q + 10) == spec_viewport_label(),
        data.subrange(q + 10, w) == viewport_repr(c.viewport_state),
        data[w] == 10u8,
        data.subrange(w + 1, w + 14) == spec_sep_label(),
        data[w + 14] == 10u8,
        data.skip(w + 15) == c.content@,
    ensures
        data == serialized_swap(c),
{
    let head = spec_ts_label() + dec_repr(c.timestamp as nat) + seq![10u8] + spec_ec_label_b()
        + dec_repr(c.edit_count as nat) + seq![10u8] + spec_path_label() + c.original_path@
        + seq![10u8];
    assert(data.subrange(0, pe + 1) =~= head);
    let mid = spec_cursor_label() + cursor_repr(c.cursor_position) + seq![10u8]
        + spec_viewport_label() + viewport_repr(c.viewport_state) + seq![10u8];
    assert(data.subrange(pe + 1, w + 1) =~= mid);
    let tail = spec_sep_label() + seq![10u8] + c.content@;
    assert(data.subrange(w + 1, data.len() as int) =~= tail);
    assert(data =~= data.subrange(0, pe + 1) + data.subrange(pe + 1, w + 1) + data.subrange(
        w + 1,
        data.len() as int,
    ));
    assert(serialized_swap(c) =~= head + mid + tail);
}

/// Whether the bytes are some well-formed record's serialisation.
pub open spec fn is_serialized_swap(data: Seq<u8>) -> bool {
    exists|c: SwapContent| swap_wf(c) && data == #[trigger] serialized_swap(c)
}

/// The head of the format: the timestamp, edit-count and path lines, with
/// `a` and `b` the numbers' closing line breaks and `pe` the path's.
pub open spec fn header_at(data: Seq<u8>, ts: u64, ec: u64, a: int, b: int, pe: int) -> bool {
    &&& a == 10 + dec_repr(ts as nat).len()
    &&& b == a + 12 + dec_repr(ec as nat).len()
    &&& b + 6 <= pe < data.len()
    &&& data.subrange(0, 10) == spec_ts_label()
    &&& dec_at(data, 10, ts, a)
    &&& data[a] == 10u8
    &&& data.subrange(a + 1, a + 12) == spec_ec_label_b()
    &&& dec_at(data, a + 12, ec, b)
    &&& data[b] == 10u8
    &&& data.subrange(b + 1, b + 6) == spec_path_label()
    &&& (forall|k: int| b + 6 <= k < pe ==> #[trigger] data[k] != 10u8)
    &&& data[pe] == 10u8
}

/// Parse the timestamp, edit-count and path lines; sound and complete for
/// the canonical head format.
#[verifier::rlimit(100)]
fn parse_swap_header(data: &[u8]) -> (r: SwapResult<(u64, u64, usize, usize, usize)>)
    ensures
        match r {
            Ok((ts, ec, a, b, pe)) => header_at(data@, ts, ec, a as int, b as int, pe as int),
            Err(e) => e is Deserialization,
        },
        forall|ts0: u64, ec0: u64, a0: int, b0: int, pe0: int|
            #[trigger] header_at(data@, ts0, ec0, a0, b0, pe0) ==> r == Ok::<
                (u64, u64, usize, usize, usize),
                SwapError,
            >((ts0, ec0, a0 as usize, b0 as usize, pe0 as usize)),
{
    let n = data.len();
    let lab_ts = ts_label();
    if !starts_with_at(data, 0, lab_ts.as_slice()) {
        return Err(SwapError::Deserialization("missing timestamp".to_string()));
    }
    let (timestamp, p) = match parse_dec(data, 10) {
        Some(x) => x,
        None => {
            return Err(SwapError::Deserialization("bad timestamp".to_string()));
        },
    };
    if p >= n || data[p] != 10 {
        return Err(SwapError::Deserialization("bad timestamp line".to_string()));
    }
    let lab_ec = ec_label_b();
    if !starts_with_at(data, p + 1, lab_ec.as_slice()) {
        return Err(SwapError::Deserialization("missing edit_count".to_string()));
    }
    let (edit_count, p2) = match parse_dec(data, p + 12) {
        Some(x) => x,
        None => {
            return Err(SwapError::Deserialization("bad edit_count".to_string()));
        },
    };
    if p2 >= n || data[p2] != 10 {
        return Err(SwapError::Deserialization("bad edit_count line".to_string()));
    }
    let lab_path = path_label();
    if !starts_with_at(data, p2 + 1, lab_path.as_slice()) {
        return Err(SwapError::Deserialization("missing path".to_string()));
    }
    let path_start = p2 + 6;
    let mut pe: usize = path_start;
    while pe < n && data[pe] != 10
        invariant
            n == data@.len(),
            path_start <= pe <= n,
            forall|k: int| path_start <= k < pe ==> data@[k] != 10u8,
        decreases n - pe,
    {
        pe += 1;
    }
    if pe >= n {
        return Err(SwapError::Deserialization("bad path line".to_string()));
    }
    proof {
        assert forall|ts0: u64, ec0: u64, a0: int, b0: int, pe0: int|
            #[trigger] header_at(data@, ts0, ec0, a0, b0, pe0) implies ts0 == timestamp && ec0
            == edit_count && a0 == p as int && b0 == p2 as int && pe0 == pe as int by {
            assert(a0 == p && ts0 == timestamp);
            assert(b0 == p2 && ec0 == edit_count);
            assert(pe0 == pe as int) by {
                if pe0 < pe {
                    assert(data@[pe0] != 10u8);
                } else if pe0 > pe {
                    assert(data@[pe as int] != 10u8);
                }
            }
        }
    }
    Ok((timestamp, edit_count, p, p2, pe))
}

/// The tail of the format from the path's closing line break at `pe`:
/// the cursor and viewport lines, then the separator line.
pub open spec fn tail_at(
    data: Seq<u8>,
    pe: int,
    cur: Option<CursorPosition>,
    vp: Option<ViewportState>,
    q: int,
    w: int,
) -> bool {
    &&& 0 <= pe
    &&& q == pe + 8 + cursor_repr(cur).len()
    &&& w == q + 10 + viewport_repr(vp).len()
    &&& w + 15 <= data.len()
    &&& data.subrange(pe + 1, pe + 8) == spec_cursor_label()
    &&& data.subrange(pe + 8, q) == cursor_repr(cur)
    &&& data[q] == 10u8
    &&& (cur is Some ==> 48 <= data[pe + 8] <= 57)
    &&& data.subrange(q + 1, q + 10) == spec_viewport_label()
    &&& data.subrange(q + 10, w) == viewport_repr(vp)
    &&& data[w] == 10u8
    &&& (vp is Some ==> 48 <= data[q + 10] <= 57)
    &&& data.subrange(w + 1, w + 14) == spec_sep_label()
    &&& data[w + 14] == 10u8
}

/// Parse the cursor, viewport and separator lines that follow the path's
/// closing line break; sound and complete for the canonical tail format.
#[verifier::rlimit(100)]
fn parse_swap_tail(data: &[u8], pe: usize) -> (r: SwapResult<
    (Option<CursorPosition>, Option<ViewportState>, usize, usize),
>)
    requires
        pe < data@.len(),
    ensures
        match r {
            Ok((cur, vp, q, w)) => tail_at(data@, pe as int, cur, vp, q as int, w as int),
            Err(e) => e is Deserialization,
        },
        forall|cur0: Option<CursorPosition>, vp0: Option<ViewportState>, q0: int, w0: int|
            #[trigger] tail_at(data@, pe as int, cur0, vp0, q0, w0) ==> r is Ok,
{
    let n = data.len();
    let lab_cur = cursor_label();
    if !starts_with_at(data, pe + 1, lab_cur.as_slice()) {
        return Err(SwapError::Deserialization("missing cursor".to_string()));
    }
    let cur_start = pe + 8;
    let cursor_position: Option<CursorPosition>;
    let qq: usize;
    if cur_start < n && data[cur_start] == 10 {
        cursor_position = None;
        qq = cur_start;
        proof {
            assert(data@.subrange(qq as int, qq as int) =~= cursor_repr(cursor_position));
            assert forall|cur0: Option<CursorPosition>, vp0: Option<ViewportState>, q0: int, w0: int|
                #[trigger] tail_at(data@, pe as int, cur0, vp0, q0, w0) implies cur0 is None && q0
                == qq as int by {
                if cur0 is Some {
                    assert(data@[pe + 8] == 10u8);
                }
            }
        }
    } else {
        proof {
            assert forall|cur0: Option<CursorPosition>, vp0: Option<ViewportState>, q0: int, w0: int|
                #[trigger] tail_at(data@, pe as int, cur0, vp0, q0, w0) implies cur0 is Some && (
            {
                let cp = cur0.unwrap();
                triple_at(data@, pe + 8, cp.line, cp.column, cp.offset, q0)
            }) by {
                if cur0 is None {
                    assert(data@[q0] == 10u8);
                    assert(q0 == pe + 8);
                }
            }
        }
        let (ca, cb, cc, q0) = match parse_triple(data, cur_start) {
            Some(x) => x,
            None => {
                return Err(SwapError::Deserialization("bad cursor".to_string()));
            },
        };
        if q0 >= n || data[q0] != 10 {
            return Err(SwapError::Deserialization("bad cursor line".to_string()));
        }
        cursor_position = Some(CursorPosition { line: ca, column: cb, offset: cc });
        qq = q0;
        proof {
            assert(data@.subrange(cur_start as int, qq as int) =~= cursor_repr(cursor_position));
        }
    }
    let lab_vp = viewport_label();
    if !starts_with_at(data, qq + 1, lab_vp.as_slice()) {
        return Err(SwapError::Deserialization("missing viewport".to_string()));
    }
    let vp_start = qq + 10;
    let viewport_state: Option<ViewportState>;
    let ww: usize;
    if vp_start < n && data[vp_start] == 10 {
        viewport_state = None;
        ww = vp_start;
        proof {
            assert(data@.subrange(ww as int, ww as int) =~= viewport_repr(viewport_state));
            assert forall|cur0: Option<CursorPosition>, vp0: Option<ViewportState>, q0: int, w0: int|
                #[trigger] tail_at(data@, pe as int, cur0, vp0, q0, w0) implies vp0 is None && w0
                == ww as int by {
                if vp0 is Some {
                    assert(data@[q0 + 10] == 10u8);
                }
            }
        }
    } else {
        proof {
            assert forall|cur0: Option<CursorPosition>, vp0: Option<ViewportState>, q0: int, w0: int|
                #[trigger] tail_at(data@, pe as int, cur0, vp0, q0, w0) implies vp0 is Some && (
            {
                let vv = vp0.unwrap();
                triple_at(data@, q0 + 10, vv.top_line, vv.visible_lines, vv.horizontal_offset, w0)
            }) by {
                if vp0 is None {
                    assert(data@[w0] == 10u8);
                    assert(w0 == q0 + 10);
                }
            }
        }
        let (va, vb, vc, w0) = match parse_triple(data, vp_start) {
            Some(x) => x,
            None => {
                return Err(SwapError::Deserialization("bad viewport".to_string()));
            },
        };
        if w0 >= n || data[w0] != 10 {
            return Err(SwapError::Deserialization("bad viewport line".to_string()));
        }
        viewport_state = Some(
            ViewportState { top_line: va, visible_lines: vb, horizontal_offset: vc },
        );
        ww = w0;
        proof {
            assert(data@.subrange(vp_start as int, ww as int) =~= viewport_repr(viewport_state));
        }
    }
    let lab_sep = sep_label();
    if !starts_with_at(data, ww + 1, lab_sep.as_slice()) {
        return Err(SwapError::Deserialization("missing separator".to_string()));
    }
    let sep_end = ww + 14;
    if sep_end >= n || data[sep_end] != 10 {
        return Err(SwapError::Deserialization("bad separator line".to_string()));
    }
    proof {
        if cursor_position is Some {
            let cp = cursor_position.unwrap();
            lemma_dec_repr_shape(cp.line as nat);
            assert(cursor_repr(cursor_position)[0] == dec_repr(cp.line as nat)[0]);
            assert(data@[pe + 8] == cursor_repr(cursor_position)[0]);
        }
        if viewport_state is Some {
            let vv = viewport_state.unwrap();
            lemma_dec_repr_shape(vv.top_line as nat);
            assert(viewport_repr(viewport_state)[0] == dec_repr(vv.top_line as nat)[0]);
            assert(data@[qq + 10] == viewport_repr(viewport_state)[0]);
        }
        assert(tail_at(
            data@,
            pe as int,
            cursor_position,
            viewport_state,
            qq as int,
            ww as int,
        ));
    }
    Ok((cursor_position, viewport_state, qq, ww))
}

/// Parse a swap record: sound — on success the input is exactly the
/// result's serialisation, byte for byte — and complete — every
/// serialised well-formed record parses.
#[verifier::rlimit(100)]
pub fn deserialize_swap_content(data: &[u8]) -> (r: SwapResult<SwapContent>)
    ensures
        match r {
            Ok(c) => data@ == serialized_swap(c) && swap_wf(c),
            Err(e) => e is Deserialization,
        },
        is_serialized_swap(data@) ==> r is Ok,
{
    let ghost has = is_serialized_swap(data@);
    let ghost wit = choose|c: SwapContent| swap_wf(c) && data@ == #[trigger] serialized_swap(c);
    let ghost la = 10 + dec_repr(wit.timestamp as nat).len() as int;
    let ghost lb = la + 12 + dec_repr(wit.edit_count as nat).len() as int;
    let ghost lpe = lb + 6 + wit.original_path@.len() as int;
    let ghost lq = lpe + 8 + cursor_repr(wit.cursor_position).len() as int;
    let ghost lw = lq + 10 + viewport_repr(wit.viewport_state).len() as int;
    proof {
        if has {
            lemma_swap_layout(data@, wit);
            assert(header_at(data@, wit.timestamp, wit.edit_count, la, lb, lpe));
            assert(0 <= lpe);
            assert(lq == lpe + 8 + cursor_repr(wit.cursor_position).len());
            assert(lw == lq + 10 + viewport_repr(wit.viewport_state).len());
            assert(data@.len() == lw + 15 + wit.content@.len());
            assert(lw + 15 <= data@.len());
            assert(data@.subrange(lpe + 1, lpe + 8) == spec_cursor_label());
            assert(data@.subrange(lpe + 8, lq) == cursor_repr(wit.cursor_position));
            assert(data@[lq] == 10u8);
            assert(wit.cursor_position is Some ==> 48 <= data@[lpe + 8] <= 57);
            assert(data@.subrange(lq + 1, lq + 10) == spec_viewport_label());
            assert(data@.subrange(lq + 10, lw) == viewport_repr(wit.viewport_state));
            assert(data@[lw] == 10u8);
            assert(wit.viewport_state is Some ==> 48 <= data@[lq + 10] <= 57);
            assert(data@.subrange(lw + 1, lw + 14) == spec_sep_label());
            assert(data@[lw + 14] == 10u8);
            assert(tail_at(data@, lpe, wit.cursor_position, wit.viewport_state, lq, lw));
        }
    }
    let header = parse_swap_header(data);
    let (timestamp, edit_count, a, b, pe) = match header {
        Ok(parts) => parts,
        Err(e) => {
            proof {
                assert(!has);
            }
            return Err(e);
        },
    };
    let original_path = vstd::slice::slice_to_vec(vstd::slice::slice_subrange(data, b + 6, pe));
    let tail = parse_swap_tail(data, pe);
    let (cursor_position, viewport_state, qq, ww) = match tail {
        Ok(parts) => parts,
        Err(e) => {
            proof {
                if has {
                    assert(pe as int == lpe);
                    assert(false);
                }
            }
            return Err(e);
        },
    };
    let n_total = data.len();
    proof {
        assert(ww + 15 <= n_total as int);
    }
    let content = vstd::slice::slice_to_vec(vstd::slice::slice_subrange(data, ww + 15, n_total));
    let result = SwapContent {
        content,
        original_path,
        edit_count,
        cursor_position,
        viewport_state,
        timestamp,
    };
    proof {
        assert(data@.skip(ww + 15) =~= result.content@);
        lemma_swap_assemble(data@, result, a as int, b as int, pe as int, qq as int, ww as int);
    }
    Ok(result)
}

/// Whether a swap write is due: the edit count reached its threshold, or
/// the buffer has sat unsaved past the idle timeout.
pub fn swap_due(
    edit_count: usize,
    edits_threshold: usize,
    last_save_ms: u64,
    now_ms: u64,
    idle_timeout_ms: u64,
) -> (r: bool)
    ensures
        r == (edit_count >= edits_threshold || now_ms >= last_save_ms + idle_timeout_ms),
{
    edit_count >= edits_threshold || (now_ms >= last_save_ms && now_ms - last_save_ms
        >= idle_timeout_ms)
}

/// The swap file name for a file: the base name behind a `.~` prefix.
pub fn swap_file_name(file_name: &str) -> (r: String)
    ensures
        r@ == ".~"@ + file_name@,
{
    let mut s = ".~".to_owned();
    s.push_str(file_name);
    s
}

} // verus!
