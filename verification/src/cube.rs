//! 1D and 3D LUT tables and the `.cube` text format (Adobe/IRIDAS).
//!
//! Tables are generic over their entry type: the parser yields the numeric
//! tokens of the file (`Cube<String>`), every one of them a valid `f32`
//! literal, and the color pipeline holds `f32` tables.

use vstd::prelude::*;
use crate::error::VisualError;
use crate::text::{chars_of, decimal, has_prefix, is_float_literal, line_ranges, lines, parse_usize, parse_usize_range, push_decimal, range_has_prefix, substring, token_ranges, tokens, trim, trim_range, is_float_literal_range};

verus! {

/// A 3D lookup table mapping RGB → RGB over the unit cube.
#[derive(Debug, Clone, PartialEq)]
pub struct Lut3D<E> {
    /// LUT size per axis (`N` means `N³` entries).
    pub size: usize,
    /// Flat table, index `r + g*size + b*size²`.
    pub data: Vec<E>,
}

/// A 1D lookup table with per-channel curves.
#[derive(Debug, Clone, PartialEq)]
pub struct Lut1D<E> {
    /// Number of entries per channel.
    pub size: usize,
    /// Red curve.
    pub red: Vec<E>,
    /// Green curve.
    pub green: Vec<E>,
    /// Blue curve.
    pub blue: Vec<E>,
}

/// A parsed `.cube` file: either a 1D or 3D table.
#[derive(Debug, Clone, PartialEq)]
pub enum Cube<E> {
    /// A 3D table.
    Lut3D(Lut3D<[E; 3]>),
    /// A 1D table.
    Lut1D(Lut1D<E>),
}

/// `e` is the invalid-operation error carrying message `m`.
pub open spec fn is_invalid(e: VisualError, m: Seq<char>) -> bool {
    e matches VisualError::InvalidOperation(s) && s@ == m
}

/// The message for a 3D table that is too small.
pub open spec fn lut3d_small_message() -> Seq<char> {
    "3D LUT size must be at least 2"@
}

/// The message for a 3D table with the wrong number of entries.
pub open spec fn lut3d_count_message(size: nat, len: nat) -> Seq<char> {
    if size * size * size <= u128::MAX {
        "3D LUT expects "@ + decimal(size * size * size) + " entries for size "@ + decimal(size) + ", got "@ + decimal(len)
    } else {
        "3D LUT size "@ + decimal(size) + " is too large"@
    }
}

/// The message for mismatched 1D channels.
pub open spec fn lut1d_channels_message() -> Seq<char> {
    "1D LUT channels must be non-empty and equal length"@
}

/// The outcome of validating a 3D table of `len` entries.
pub open spec fn lut3d_check(size: nat, len: nat) -> Option<Seq<char>> {
    if size < 2 {
        Some(lut3d_small_message())
    } else if len != size * size * size {
        Some(lut3d_count_message(size, len))
    } else {
        None
    }
}

impl<E> Lut3D<E> {
    /// Builds a LUT from a flat table, validating the length.
    pub fn new(size: usize, data: Vec<E>) -> (res: Result<Self, VisualError>)
        ensures
            match lut3d_check(size as nat, data@.len()) {
                None => res matches Ok(l) && l.size == size && l.data@ == data@,
                Some(m) => res matches Err(e) && is_invalid(e, m),
            },
    {
        if size < 2 {
            return Err(VisualError::InvalidOperation("3D LUT size must be at least 2".to_owned()));
        }
        let wide = size as u128;
        assert(wide * wide <= u128::MAX) by (nonlinear_arith)
            requires
                wide <= usize::MAX,
        ;
        let square = wide * wide;
        match square.checked_mul(wide) {
            Some(cube) => {
                if data.len() as u128 != cube {
                    let mut m = String::new();
                    m.append("3D LUT expects ");
                    push_decimal(&mut m, cube);
                    m.append(" entries for size ");
                    push_decimal(&mut m, wide);
                    m.append(", got ");
                    push_decimal(&mut m, data.len() as u128);
                    return Err(VisualError::InvalidOperation(m));
                }
            },
            None => {
                let len = data.len();
                assert(data@.len() == len);
                assert(size * size * size > u128::MAX);
                let mut m = String::new();
                m.append("3D LUT size ");
                push_decimal(&mut m, wide);
                m.append(" is too large");
                return Err(VisualError::InvalidOperation(m));
            },
        }
        Ok(Lut3D { size, data })
    }
}

impl<E> Lut1D<E> {
    /// Builds a per-channel LUT, validating lengths.
    pub fn new(red: Vec<E>, green: Vec<E>, blue: Vec<E>) -> (res: Result<Self, VisualError>)
        ensures
            if red@.len() == 0 || green@.len() != red@.len() || blue@.len() != red@.len() {
                res matches Err(e) && is_invalid(e, lut1d_channels_message())
            } else {
                res matches Ok(l) && l.size == red@.len() && l.red@ == red@ && l.green@ == green@ && l.blue@ == blue@
            },
    {
        if red.len() == 0 || green.len() != red.len() || blue.len() != red.len() {
            return Err(VisualError::InvalidOperation(
                "1D LUT channels must be non-empty and equal length".to_owned(),
            ));
        }
        let size = red.len();
        Ok(Lut1D { size, red, green, blue })
    }
}

/// A `.cube` table over token text, as the format defines it.
pub enum SpecCube {
    /// A 3D table: `size` and its entries, each three tokens.
    Lut3D { size: nat, data: Seq<Seq<Seq<char>>> },
    /// A 1D table: `size` and one token curve per channel.
    Lut1D { size: nat, red: Seq<Seq<char>>, green: Seq<Seq<char>>, blue: Seq<Seq<char>> },
}

/// The three tokens of one 3D entry.
pub open spec fn entry_tokens(e: [String; 3]) -> Seq<Seq<char>> {
    seq![e[0]@, e[1]@, e[2]@]
}

/// The token content of a parsed cube.
pub open spec fn cube_tokens(c: Cube<String>) -> SpecCube {
    match c {
        Cube::Lut3D(l) => SpecCube::Lut3D {
            size: l.size as nat,
            data: Seq::new(l.data@.len(), |i: int| entry_tokens(l.data@[i])),
        },
        Cube::Lut1D(l) => SpecCube::Lut1D {
            size: l.size as nat,
            red: Seq::new(l.red@.len(), |i: int| l.red@[i]@),
            green: Seq::new(l.green@.len(), |i: int| l.green@[i]@),
            blue: Seq::new(l.blue@.len(), |i: int| l.blue@[i]@),
        },
    }
}

/// Header and data collected from the lines read so far.
pub struct CubeScan {
    /// Last `LUT_3D_SIZE` value.
    pub size3: Option<usize>,
    /// Last `LUT_1D_SIZE` value.
    pub size1: Option<usize>,
    /// Data entries, each three tokens (one-column lines repeat their token;
    /// a data line holds exactly one or three numbers).
    pub entries: Seq<Seq<Seq<char>>>,
}

/// The message for a bad line (numbered from 1).
pub open spec fn cube_line_message(line_index: nat, msg: Seq<char>) -> Seq<char> {
    ".cube line "@ + decimal(line_index + 1) + ": "@ + msg
}

/// The size header value after `prefix`, if the trimmed line starts with
/// it.
pub open spec fn size_after(t: Seq<char>, prefix: Seq<char>) -> Option<usize> {
    parse_usize(trim(t.skip(prefix.len() as int)))
}

/// Reads one line into the scan state.
pub open spec fn scan_line(st: CubeScan, line: Seq<char>, index: nat) -> Result<CubeScan, Seq<char>> {
    let t = trim(line);
    if t.len() == 0 || t[0] == '#' || has_prefix(t, "TITLE"@) {
        Ok(st)
    } else if has_prefix(t, "LUT_3D_SIZE"@) || has_prefix(t, "LUT_3D_INPUT_SIZE"@) {
        let v = if has_prefix(t, "LUT_3D_SIZE"@) { size_after(t, "LUT_3D_SIZE"@) } else { size_after(t, "LUT_3D_INPUT_SIZE"@) };
        match v {
            Some(size) => Ok(CubeScan { size3: Some(size), ..st }),
            None => Err(cube_line_message(index, "invalid LUT_3D_SIZE value"@)),
        }
    } else if has_prefix(t, "LUT_1D_SIZE"@) || has_prefix(t, "LUT_1D_INPUT_SIZE"@) {
        let v = if has_prefix(t, "LUT_1D_SIZE"@) { size_after(t, "LUT_1D_SIZE"@) } else { size_after(t, "LUT_1D_INPUT_SIZE"@) };
        match v {
            Some(size) => Ok(CubeScan { size1: Some(size), ..st }),
            None => Err(cube_line_message(index, "invalid LUT_1D_SIZE value"@)),
        }
    } else if has_prefix(t, "DOMAIN_"@) || has_prefix(t, "ORIGIN"@) || has_prefix(t, "LUT_ID"@) {
        Ok(st)
    } else {
        let toks = tokens(t);
        if toks.len() == 0 || !is_float_literal(toks[0]) {
            Err(cube_line_message(index, "malformed LUT data line"@))
        } else if toks.len() > 3 {
            Err(cube_line_message(index, "too many columns in LUT data line"@))
        } else if toks.len() == 1 {
            Ok(CubeScan { entries: st.entries.push(seq![toks[0], toks[0], toks[0]]), ..st })
        } else if toks.len() == 3 && is_float_literal(toks[1]) && is_float_literal(toks[2]) {
            Ok(CubeScan { entries: st.entries.push(toks), ..st })
        } else {
            Err(cube_line_message(index, "malformed LUT data line"@))
        }
    }
}

/// Reads `lines` in order, stopping at the first bad line.
pub open spec fn scan_lines(lines: Seq<Seq<char>>) -> Result<CubeScan, Seq<char>>
    decreases lines.len(),
{
    if lines.len() == 0 {
        Ok(CubeScan { size3: None, size1: None, entries: Seq::empty() })
    } else {
        match scan_lines(lines.drop_last()) {
            Ok(st) => scan_line(st, lines.last(), (lines.len() - 1) as nat),
            Err(m) => Err(m),
        }
    }
}

/// The message for a 1D table whose entry count fits neither layout.
pub open spec fn lut1d_count_message(size: nat, len: nat) -> Seq<char> {
    "1D LUT of size "@ + decimal(size) + " needs "@ + decimal(size) + " or "@ + decimal(size * 3) + " entries, got "@ + decimal(len)
}

/// The message for a file without a size header.
pub open spec fn missing_header_message() -> Seq<char> {
    "missing LUT_3D_SIZE or LUT_1D_SIZE header"@
}

/// One channel of a 1D table: column `col` of `size` entries from `start`.
pub open spec fn column_run(entries: Seq<Seq<Seq<char>>>, start: nat, size: nat, col: int) -> Seq<Seq<char>> {
    Seq::new(size, |i: int| entries[start + i][col])
}

/// What a `.cube` text describes: the table, or the error message.
pub open spec fn cube_spec(text: Seq<char>) -> Result<SpecCube, Seq<char>> {
    match scan_lines(lines(text)) {
        Err(m) => Err(m),
        Ok(st) => match st.size3 {
            Some(size) => match lut3d_check(size as nat, st.entries.len()) {
                Some(m) => Err(m),
                None => Ok(SpecCube::Lut3D { size: size as nat, data: st.entries }),
            },
            None => match st.size1 {
                Some(size) => {
                    let n = st.entries.len();
                    if n == size {
                        if size == 0 {
                            Err(lut1d_channels_message())
                        } else {
                            Ok(SpecCube::Lut1D {
                                size: size as nat,
                                red: column_run(st.entries, 0, size as nat, 0),
                                green: column_run(st.entries, 0, size as nat, 1),
                                blue: column_run(st.entries, 0, size as nat, 2),
                            })
                        }
                    } else if n == size * 3 {
                        Ok(SpecCube::Lut1D {
                            size: size as nat,
                            red: column_run(st.entries, 0, size as nat, 0),
                            green: column_run(st.entries, size as nat, size as nat, 0),
                            blue: column_run(st.entries, 2 * size as nat, size as nat, 0),
                        })
                    } else {
                        Err(lut1d_count_message(size as nat, n))
                    }
                },
                None => Err(missing_header_message()),
            },
        },
    }
}


/// The token content of parsed 3D entries.
pub open spec fn entries_view(v: Seq<[String; 3]>) -> Seq<Seq<Seq<char>>> {
    Seq::new(v.len(), |i: int| entry_tokens(v[i]))
}

/// The error for a bad `.cube` line (`line` counts from 0; the message
/// numbers lines from 1).
pub fn cube_error(line: usize, msg: &str) -> (e: VisualError)
    ensures
        is_invalid(e, cube_line_message(line as nat, msg@)),
{
    let mut m = String::new();
    m.append(".cube line ");
    push_decimal(&mut m, line as u128 + 1);
    m.append(": ");
    m.append(msg);
    VisualError::InvalidOperation(m)
}

/// Reads the line `chars[a..b]` (number `index`) into the scan state.
fn scan_one_line(
    chars: &Vec<char>,
    a: usize,
    b: usize,
    index: usize,
    size3: &mut Option<usize>,
    size1: &mut Option<usize>,
    entries: &mut Vec<[String; 3]>,
) -> (res: Option<VisualError>)
    requires
        a <= b <= chars@.len(),
    ensures
        ({
            let st = CubeScan { size3: *old(size3), size1: *old(size1), entries: entries_view(old(entries)@) };
            match scan_line(st, chars@.subrange(a as int, b as int), index as nat) {
                Ok(next) => {
                    &&& res is None
                    &&& *final(size3) == next.size3
                    &&& *final(size1) == next.size1
                    &&& entries_view(final(entries)@) == next.entries
                },
                Err(m) => res matches Some(e) && is_invalid(e, m),
            }
        }),
{
    let (ta, tb) = trim_range(chars, a, b);
    let ghost t = chars@.subrange(ta as int, tb as int);
    let title = chars_of("TITLE");
    if ta == tb || chars[ta] == '#' || range_has_prefix(chars, ta, tb, &title) {
        return None;
    }
    let p3 = chars_of("LUT_3D_SIZE");
    let p3i = chars_of("LUT_3D_INPUT_SIZE");
    let h3 = range_has_prefix(chars, ta, tb, &p3);
    if h3 || range_has_prefix(chars, ta, tb, &p3i) {
        let plen = if h3 { p3.len() } else { p3i.len() };
        assert(t.skip(plen as int) =~= chars@.subrange(ta + plen, tb as int));
        let (ra, rb) = trim_range(chars, ta + plen, tb);
        match parse_usize_range(chars, ra, rb) {
            Some(v) => {
                *size3 = Some(v);
                return None;
            },
            None => {
                return Some(cube_error(index, "invalid LUT_3D_SIZE value"));
            },
        }
    }
    let p1 = chars_of("LUT_1D_SIZE");
    let p1i = chars_of("LUT_1D_INPUT_SIZE");
    let h1 = range_has_prefix(chars, ta, tb, &p1);
    if h1 || range_has_prefix(chars, ta, tb, &p1i) {
        let plen = if h1 { p1.len() } else { p1i.len() };
        assert(t.skip(plen as int) =~= chars@.subrange(ta + plen, tb as int));
        let (ra, rb) = trim_range(chars, ta + plen, tb);
        match parse_usize_range(chars, ra, rb) {
            Some(v) => {
                *size1 = Some(v);
                return None;
            },
            None => {
                return Some(cube_error(index, "invalid LUT_1D_SIZE value"));
            },
        }
    }
    let domain = chars_of("DOMAIN_");
    let origin = chars_of("ORIGIN");
    let lut_id = chars_of("LUT_ID");
    if range_has_prefix(chars, ta, tb, &domain) || range_has_prefix(chars, ta, tb, &origin)
        || range_has_prefix(chars, ta, tb, &lut_id) {
        return None;
    }
    let toks = token_ranges(chars, ta, tb);
    let ghost tv = tokens(t);
    if toks.len() == 0 || !is_float_literal_range(chars, toks[0].0, toks[0].1) {
        return Some(cube_error(index, "malformed LUT data line"));
    }
    if toks.len() > 3 {
        return Some(cube_error(index, "too many columns in LUT data line"));
    }
    let ghost before = entries_view(entries@);
    if toks.len() == 1 {
        let r = substring(chars, toks[0].0, toks[0].1);
        let g = r.clone();
        let bl = r.clone();
        entries.push([r, g, bl]);
        assert(entries_view(entries@) =~= before.push(seq![tv[0], tv[0], tv[0]])) by {
            assert(entry_tokens(entries@[entries@.len() - 1]) =~= seq![tv[0], tv[0], tv[0]]);
        }
        return None;
    }
    if toks.len() == 3 && is_float_literal_range(chars, toks[1].0, toks[1].1)
        && is_float_literal_range(chars, toks[2].0, toks[2].1) {
        let r = substring(chars, toks[0].0, toks[0].1);
        let g = substring(chars, toks[1].0, toks[1].1);
        let bl = substring(chars, toks[2].0, toks[2].1);
        entries.push([r, g, bl]);
        assert(entries_view(entries@) =~= before.push(tv)) by {
            assert(entry_tokens(entries@[entries@.len() - 1]) =~= tv);
        }
        return None;
    }
    Some(cube_error(index, "malformed LUT data line"))
}

/// Once a line is rejected, later lines do not change the outcome.
proof fn lemma_scan_err_persists(lines: Seq<Seq<char>>, k: int)
    requires
        0 <= k <= lines.len(),
        scan_lines(lines.take(k)) is Err,
    ensures
        scan_lines(lines) == scan_lines(lines.take(k)),
    decreases lines.len() - k,
{
    if k < lines.len() {
        assert(lines.take(k + 1).drop_last() =~= lines.take(k));
        lemma_scan_err_persists(lines, k + 1);
    } else {
        assert(lines.take(k) =~= lines);
    }
}

/// Law: a `.cube` text is rejected as soon as one of its lines is (a bad
/// header value, or a data line that does not hold exactly one or three
/// numbers), whatever follows.
pub proof fn lemma_bad_line_rejects_text(text: Seq<char>, k: int)
    requires
        0 <= k < lines(text).len(),
        scan_lines(lines(text).take(k)) is Ok,
        scan_line(scan_lines(lines(text).take(k))->Ok_0, lines(text)[k], k as nat) is Err,
    ensures
        cube_spec(text) is Err,
{
    let all = lines(text);
    assert(all.take(k + 1).drop_last() =~= all.take(k));
    assert(all.take(k + 1).last() == all[k]);
    lemma_scan_err_persists(all, k + 1);
}

/// Column `col` of `count` entries from `start`, as a curve.
fn column(entries: &Vec<[String; 3]>, start: usize, count: usize, col: usize) -> (out: Vec<String>)
    requires
        start + count <= entries@.len(),
        col < 3,
    ensures
        Seq::new(out@.len(), |i: int| out@[i]@) == column_run(entries_view(entries@), start as nat, count as nat, col as int),
{
    let total = entries.len();
    let mut out: Vec<String> = Vec::new();
    let mut i: usize = 0;
    while i < count
        invariant
            total == entries@.len(),
            start + count <= entries@.len(),
            i <= count,
            out@.len() == i,
            col < 3,
            forall|k: int| 0 <= k < i ==> #[trigger] out@[k]@ == entries@[start + k][col as int]@,
        decreases count - i,
    {
        let v = entries[start + i][col].clone();
        out.push(v);
        i += 1;
    }
    assert(Seq::new(out@.len(), |i: int| out@[i]@) =~= column_run(entries_view(entries@), start as nat, count as nat, col as int));
    out
}

/// Parses `.cube` text (Adobe/IRIDAS format) into a table of numeric
/// tokens, each a valid `f32` literal.
///
/// A data line holds exactly one number (repeated to all channels) or three
/// (red, green, blue). A 1D table of `size` lines takes each channel from
/// its own column; one of `3 * size` lines lists the red points, then the
/// green, then the blue.
pub fn parse_cube(text: &str) -> (res: Result<Cube<String>, VisualError>)
    ensures
        match cube_spec(text@) {
            Ok(c) => res matches Ok(r) && cube_tokens(r) == c,
            Err(m) => res matches Err(e) && is_invalid(e, m),
        },
{
    let chars = chars_of(text);
    let ranges = line_ranges(&chars);
    let ghost all = lines(chars@);
    let mut size3: Option<usize> = None;
    let mut size1: Option<usize> = None;
    let mut entries: Vec<[String; 3]> = Vec::new();
    let mut i: usize = 0;
    assert(all.take(0) =~= Seq::<Seq<char>>::empty());
    assert(entries_view(entries@) =~= Seq::<Seq<Seq<char>>>::empty());
    while i < ranges.len()
        invariant
            all == lines(chars@),
            chars@ == text@,
            ranges@.len() == all.len(),
            forall|k: int| 0 <= k < ranges@.len() ==> (#[trigger] ranges@[k]).0 <= ranges@[k].1 <= chars@.len(),
            forall|k: int| 0 <= k < ranges@.len() ==> chars@.subrange((#[trigger] ranges@[k]).0 as int, ranges@[k].1 as int) == all[k],
            i <= ranges@.len(),
            scan_lines(all.take(i as int)) == Ok::<CubeScan, Seq<char>>(CubeScan { size3, size1, entries: entries_view(entries@) }),
        decreases ranges@.len() - i,
    {
        let (a, b) = ranges[i];
        let ghost st = CubeScan { size3, size1, entries: entries_view(entries@) };
        assert(all.take(i + 1).drop_last() =~= all.take(i as int));
        assert(all.take(i + 1).last() == all[i as int]);
        match scan_one_line(&chars, a, b, i, &mut size3, &mut size1, &mut entries) {
            Some(e) => {
                proof {
                    assert(scan_lines(all.take(i + 1)) == scan_line(st, all[i as int], i as nat));
                    assert(chars@.subrange(a as int, b as int) == all[i as int]);
                    assert(scan_line(st, all[i as int], i as nat) is Err);
                    lemma_scan_err_persists(all, i as int + 1);
                    assert(scan_lines(all) is Err);
                    assert(all == lines(text@));
                    assert(cube_spec(text@) is Err);
                }
                return Err(e);
            },
            None => {},
        }
        i += 1;
    }
    assert(all.take(ranges@.len() as int) =~= all);
    let ghost final_scan = CubeScan { size3, size1, entries: entries_view(entries@) };
    assert(scan_lines(lines(text@)) == Ok::<CubeScan, Seq<char>>(final_scan));
    match size3 {
        Some(size) => {
            return match Lut3D::new(size, entries) {
                Ok(l) => {
                    assert(cube_tokens(Cube::Lut3D(l)) == cube_spec(text@)->Ok_0) by {
                        let c = cube_tokens(Cube::Lut3D(l));
                        assert(c matches SpecCube::Lut3D { size: s, data: d } && d =~= entries_view(l.data@));
                    }
                    Ok(Cube::Lut3D(l))
                },
                Err(e) => Err(e),
            };
        },
        None => {},
    }
    match size1 {
        Some(size) => {
            let n = entries.len();
            if n == size {
                let red = column(&entries, 0, size, 0);
                let green = column(&entries, 0, size, 1);
                let blue = column(&entries, 0, size, 2);
                proof {
                    assert(Seq::new(red@.len(), |i: int| red@[i]@).len() == size);
                    assert(Seq::new(green@.len(), |i: int| green@[i]@).len() == size);
                    assert(Seq::new(blue@.len(), |i: int| blue@[i]@).len() == size);
                    assert(final_scan.size3 is None);
                    assert(final_scan.size1 == Some(size));
                    assert(final_scan.entries.len() == size);
                    if size == 0 {
                        assert(cube_spec(text@) == Err::<SpecCube, Seq<char>>(lut1d_channels_message()));
                    }
                }
                return match Lut1D::new(red, green, blue) {
                    Ok(l) => {
                        proof {
                            let ev = entries_view(entries@);
                            let spec_cube = SpecCube::Lut1D {
                                size: size as nat,
                                red: column_run(ev, 0, size as nat, 0),
                                green: column_run(ev, 0, size as nat, 1),
                                blue: column_run(ev, 0, size as nat, 2),
                            };
                            assert(l.red@ == red@ && l.green@ == green@ && l.blue@ == blue@);
                            assert(size != 0);
                            assert(final_scan.size3 is None);
                            assert(final_scan.size1 == Some(size));
                            assert(final_scan.entries.len() == size);
                            assert(cube_spec(text@) == Ok::<SpecCube, Seq<char>>(spec_cube));
                            assert(cube_tokens(Cube::Lut1D(l)) == spec_cube);
                        }
                        Ok(Cube::Lut1D(l))
                    },
                    Err(e) => Err(e),
                };
            }
            if n as u128 == size as u128 * 3 {
                let red = column(&entries, 0, size, 0);
                let green = column(&entries, size, size, 0);
                let blue = column(&entries, 2 * size, size, 0);
                proof {
                    assert(Seq::new(red@.len(), |i: int| red@[i]@).len() == size);
                    assert(Seq::new(green@.len(), |i: int| green@[i]@).len() == size);
                    assert(Seq::new(blue@.len(), |i: int| blue@[i]@).len() == size);
                    assert(size != 0);
                }
                return match Lut1D::new(red, green, blue) {
                    Ok(l) => {
                        proof {
                            let ev = entries_view(entries@);
                            let spec_cube = SpecCube::Lut1D {
                                size: size as nat,
                                red: column_run(ev, 0, size as nat, 0),
                                green: column_run(ev, size as nat, size as nat, 0),
                                blue: column_run(ev, 2 * size as nat, size as nat, 0),
                            };
                            assert(l.red@ == red@ && l.green@ == green@ && l.blue@ == blue@);
                            assert(Seq::new(red@.len(), |i: int| red@[i]@) == column_run(ev, 0, size as nat, 0));
                            assert(Seq::new(green@.len(), |i: int| green@[i]@) == column_run(ev, size as nat, size as nat, 0));
                            assert(Seq::new(blue@.len(), |i: int| blue@[i]@) == column_run(ev, 2 * size as nat, size as nat, 0));
                            assert(final_scan.size3 is None);
                            assert(final_scan.size1 == Some(size));
                            assert(final_scan.entries.len() == size * 3);
                            assert(cube_spec(text@) == Ok::<SpecCube, Seq<char>>(spec_cube));
                            assert(cube_tokens(Cube::Lut1D(l)) == spec_cube);
                        }
                        Ok(Cube::Lut1D(l))
                    },
                    Err(e) => Err(e),
                };
            }
            let mut m = String::new();
            m.append("1D LUT of size ");
            push_decimal(&mut m, size as u128);
            m.append(" needs ");
            push_decimal(&mut m, size as u128);
            m.append(" or ");
            push_decimal(&mut m, size as u128 * 3);
            m.append(" entries, got ");
            push_decimal(&mut m, n as u128);
            Err(VisualError::InvalidOperation(m))
        },
        None => Err(VisualError::InvalidOperation("missing LUT_3D_SIZE or LUT_1D_SIZE header".to_owned())),
    }
}

} // verus!
