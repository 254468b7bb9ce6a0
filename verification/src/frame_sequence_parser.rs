//! Parser for the frame-sequence expression language.
//!
//! The grammar, informally:
//!
//! ```text
//! FrameSequenceString := FrameSequencePart ("," FrameSequencePart)*
//! FrameSequencePart   := FrameRange | Frame
//! FrameRange          := Frame "-" Frame ("@" (PositiveNumber | "b"))?
//! Frame               := ["-"] Digit+
//! PositiveNumber      := Digit+        (value must be > 0)
//! ```
//!
//! Whitespace between tokens is not significant; a `Frame` or a
//! `PositiveNumber` is a single token and admits no inner whitespace.  Since
//! a comma can never occur inside a part, the language is equivalently: the
//! text splits on commas into pieces, and every piece must be one part.  The
//! specification-level model below is written that way, and the executable
//! parser is verified against it.

use vstd::prelude::*;

use crate::FrameSequenceError;

verus! {

// ---------------------------------------------------------------------------
// The specification-level parse tree.
// ---------------------------------------------------------------------------

/// Mathematical counterpart of [`RangeModifier`]: the value carried by the
/// optional `@` suffix of a range.
pub enum SpecRangeModifier {
    /// `@N`: a positive step count.
    Step(int),
    /// `@b`: binary-split ordering.
    Binary,
}

/// Mathematical counterpart of [`FrameSequencePart`]: one comma-separated
/// part, with unbounded integer values.
pub enum SpecPart {
    /// A single frame literal.
    Frame(int),
    /// A range `left-right`, possibly carrying a modifier.
    FrameRange { left: int, right: int, modifier: Option<SpecRangeModifier> },
}

/// What parsing a whole expression yields: either the sequence of parts, or
/// the character index of the first comma-separated piece that is malformed.
pub enum SpecParseResult {
    Parsed(Seq<SpecPart>),
    Failed(int),
}

// ---------------------------------------------------------------------------
// Lexical helpers.
// ---------------------------------------------------------------------------

/// Insignificant whitespace between tokens.
pub open spec fn is_ws_char(c: char) -> bool {
    c == ' ' || c == '\t'
}

/// A decimal digit.
pub open spec fn is_digit_char(c: char) -> bool {
    '0' <= c && c <= '9'
}

/// Numeric value of a decimal digit.
pub open spec fn digit_val(c: char) -> int {
    c as int - '0' as int
}

/// First index `j >= i` such that `s[j]` is not whitespace, or `s.len()`.
pub open spec fn skip_ws(s: Seq<char>, i: int) -> int
    decreases s.len() - i,
    when 0 <= i <= s.len()
{
    if i < s.len() && is_ws_char(s[i]) {
        skip_ws(s, i + 1)
    } else {
        i
    }
}

/// First index `j` with `i <= j <= hi` such that `j == hi` or `s[j]` is not
/// a digit.
pub open spec fn scan_digits(s: Seq<char>, i: int, hi: int) -> int
    decreases hi - i,
    when 0 <= i <= hi <= s.len()
{
    if i < hi && is_digit_char(s[i]) {
        scan_digits(s, i + 1, hi)
    } else {
        i
    }
}

/// Value of the digit run `s[lo..hi)` read as a decimal number.
pub open spec fn digits_val(s: Seq<char>, lo: int, hi: int) -> int
    decreases hi - lo,
    when 0 <= lo <= hi <= s.len()
{
    if lo >= hi {
        0
    } else {
        digits_val(s, lo, hi - 1) * 10 + digit_val(s[hi - 1])
    }
}

/// First index `j >= i` such that `s[j]` is a comma, or `s.len()`.
pub open spec fn next_comma(s: Seq<char>, i: int) -> int
    decreases s.len() - i,
    when 0 <= i <= s.len()
{
    if i < s.len() && s[i] != ',' {
        next_comma(s, i + 1)
    } else {
        i
    }
}

// ---------------------------------------------------------------------------
// The grammar, one layer per rule.
// ---------------------------------------------------------------------------

/// Parses a `Frame` token (`["-"] Digit+`) starting exactly at `i`, bounded
/// by `hi`.  Yields the signed value and the index just past the token.
pub open spec fn parse_frame_at(s: Seq<char>, i: int, hi: int) -> Option<(int, int)>
    recommends
        0 <= i <= hi <= s.len(),
{
    let neg = i < hi && s[i] == '-';
    let d0 = if neg { i + 1 } else { i };
    let dend = scan_digits(s, d0, hi);
    if dend == d0 {
        None
    } else if neg {
        Some((-digits_val(s, d0, dend), dend))
    } else {
        Some((digits_val(s, d0, dend), dend))
    }
}

/// Parses one whole comma-separated piece `s[lo..hi)` as a
/// `FrameSequencePart`, whitespace around tokens allowed.  `None` when the
/// piece is malformed.
pub open spec fn parse_piece(s: Seq<char>, lo: int, hi: int) -> Option<SpecPart>
    recommends
        0 <= lo <= hi <= s.len(),
{
    let a = skip_ws(s, lo);
    match parse_frame_at(s, if a <= hi { a } else { hi }, hi) {
        None => None,
        Some((left, j)) => {
            let j2 = skip_ws(s, j);
            if j2 >= hi {
                Some(SpecPart::Frame(left))
            } else if s[j2] == '-' {
                let k = skip_ws(s, j2 + 1);
                match parse_frame_at(s, if k <= hi { k } else { hi }, hi) {
                    None => None,
                    Some((right, m)) => {
                        let m2 = skip_ws(s, m);
                        if m2 >= hi {
                            Some(SpecPart::FrameRange { left, right, modifier: None })
                        } else if s[m2] == '@' {
                            parse_modifier(s, left, right, m2 + 1, hi)
                        } else {
                            None
                        }
                    },
                }
            } else {
                None
            }
        },
    }
}

/// Parses what follows the `@` of a range: a positive step count or the
/// binary-split symbol `b`, then only whitespace up to `hi`.
pub open spec fn parse_modifier(s: Seq<char>, left: int, right: int, i: int, hi: int) -> Option<
    SpecPart,
>
    recommends
        0 <= i <= hi <= s.len(),
{
    let p = skip_ws(s, i);
    if p >= hi {
        None
    } else if s[p] == 'b' {
        if skip_ws(s, p + 1) >= hi {
            Some(
                SpecPart::FrameRange {
                    left,
                    right,
                    modifier: Some(SpecRangeModifier::Binary),
                },
            )
        } else {
            None
        }
    } else {
        let dend = scan_digits(s, p, hi);
        if dend == p {
            None
        } else {
            let step = digits_val(s, p, dend);
            if step > 0 && skip_ws(s, dend) >= hi {
                Some(
                    SpecPart::FrameRange {
                        left,
                        right,
                        modifier: Some(SpecRangeModifier::Step(step)),
                    },
                )
            } else {
                None
            }
        }
    }
}

/// Parses the comma-separated pieces of `s` from index `i` on.  On failure
/// the result carries the start index of the first malformed piece.
pub open spec fn spec_parse_from(s: Seq<char>, i: int) -> SpecParseResult
    decreases s.len() - i,
    when 0 <= i <= s.len()
    via spec_parse_from_decreases
{
    let j = next_comma(s, i);
    match parse_piece(s, i, j) {
        None => SpecParseResult::Failed(i),
        Some(part) => {
            if j == s.len() {
                SpecParseResult::Parsed(seq![part])
            } else {
                match spec_parse_from(s, j + 1) {
                    SpecParseResult::Failed(p) => SpecParseResult::Failed(p),
                    SpecParseResult::Parsed(rest) => SpecParseResult::Parsed(
                        seq![part] + rest,
                    ),
                }
            }
        },
    }
}

#[via_fn]
proof fn spec_parse_from_decreases(s: Seq<char>, i: int) {
    lemma_next_comma_bounds(s, i);
}

/// Bounds of [`next_comma`]: the result stays within `[i, s.len()]`.
pub proof fn lemma_next_comma_bounds(s: Seq<char>, i: int)
    requires
        0 <= i <= s.len(),
    ensures
        i <= next_comma(s, i) <= s.len(),
    decreases s.len() - i,
{
    if i < s.len() && s[i] != ',' {
        lemma_next_comma_bounds(s, i + 1);
    }
}

/// The specification of parsing: what any correct parser must return for
/// the character sequence `s`.
pub open spec fn spec_parse(s: Seq<char>) -> SpecParseResult {
    spec_parse_from(s, 0)
}

// ---------------------------------------------------------------------------
// Bounds and sign facts about the lexical helpers.
// ---------------------------------------------------------------------------

/// Bounds of [`scan_digits`]: the result stays within `[i, hi]`, and every
/// character it passed over is a digit.
pub proof fn lemma_scan_digits_bounds(s: Seq<char>, i: int, hi: int)
    requires
        0 <= i <= hi <= s.len(),
    ensures
        i <= scan_digits(s, i, hi) <= hi,
        forall|k: int| i <= k < scan_digits(s, i, hi) ==> is_digit_char(#[trigger] s[k]),
    decreases hi - i,
{
    if i < hi && is_digit_char(s[i]) {
        lemma_scan_digits_bounds(s, i + 1, hi);
    }
}

/// A digit run never has a negative value.
pub proof fn lemma_digits_val_nonneg(s: Seq<char>, lo: int, hi: int)
    requires
        0 <= lo <= hi <= s.len(),
        forall|k: int| lo <= k < hi ==> is_digit_char(#[trigger] s[k]),
    ensures
        digits_val(s, lo, hi) >= 0,
    decreases hi - lo,
{
    if lo < hi {
        lemma_digits_val_nonneg(s, lo, hi - 1);
    }
}

// ---------------------------------------------------------------------------
// The executable parse tree.
// ---------------------------------------------------------------------------

/// The optional `@` suffix of a range.
#[derive(Debug, Clone, Copy, PartialEq, Eq, Structural)]
pub enum RangeModifier {
    /// `@N`: visit every `N`-th frame only.
    Step(isize),
    /// `@b`: visit the range in binary-split order.
    Binary,
}

/// One comma-separated part of a frame-sequence expression.
#[derive(Debug, Clone, Copy, PartialEq, Eq, Structural)]
pub enum FrameSequencePart {
    /// A single frame literal.
    Frame(isize),
    /// A range `left-right`, possibly carrying a modifier.
    FrameRange { left: isize, right: isize, modifier: Option<RangeModifier> },
}

impl View for RangeModifier {
    type V = SpecRangeModifier;

    open spec fn view(&self) -> SpecRangeModifier {
        match self {
            RangeModifier::Step(st) => SpecRangeModifier::Step(*st as int),
            RangeModifier::Binary => SpecRangeModifier::Binary,
        }
    }
}

impl View for FrameSequencePart {
    type V = SpecPart;

    open spec fn view(&self) -> SpecPart {
        match self {
            FrameSequencePart::Frame(f) => SpecPart::Frame(*f as int),
            FrameSequencePart::FrameRange { left, right, modifier } => SpecPart::FrameRange {
                left: *left as int,
                right: *right as int,
                modifier: match modifier {
                    Option::None => Option::None,
                    Option::Some(m) => Option::Some(m@),
                },
            },
        }
    }
}

/// The views of a sequence of executable parts.
pub open spec fn spec_parts_of(s: Seq<FrameSequencePart>) -> Seq<SpecPart> {
    s.map_values(|p: FrameSequencePart| p@)
}

/// Whether a mathematical frame value is representable as an `isize`.
pub open spec fn frame_fits(v: int) -> bool {
    isize::MIN as int <= v <= isize::MAX as int
}

/// Whether every literal of a part is representable as an `isize`.
pub open spec fn part_fits(p: SpecPart) -> bool {
    match p {
        SpecPart::Frame(f) => frame_fits(f),
        SpecPart::FrameRange { left, right, modifier } => frame_fits(left) && frame_fits(right)
            && match modifier {
            Option::Some(SpecRangeModifier::Step(st)) => frame_fits(st),
            _ => true,
        },
    }
}

/// Whether every literal of every part is representable as an `isize`.
pub open spec fn parts_fit(ps: Seq<SpecPart>) -> bool {
    forall|k: int| 0 <= k < ps.len() ==> part_fits(#[trigger] ps[k])
}

/// A part is well formed when a step modifier, if present, is positive.
/// The parser only ever produces well-formed parts.
pub open spec fn part_wf(p: SpecPart) -> bool {
    match p {
        SpecPart::Frame(_) => true,
        SpecPart::FrameRange { modifier, .. } => match modifier {
            Option::Some(SpecRangeModifier::Step(st)) => st >= 1,
            _ => true,
        },
    }
}

/// Every part of the sequence is well formed.
pub open spec fn parts_wf(ps: Seq<SpecPart>) -> bool {
    forall|k: int| 0 <= k < ps.len() ==> part_wf(#[trigger] ps[k])
}

// ---------------------------------------------------------------------------
// The executable parser.
// ---------------------------------------------------------------------------

/// One more than the largest magnitude an `isize` can carry; digit
/// accumulation is clamped just above it.
pub open spec fn mag_bound() -> int {
    isize::MAX as int + 1
}

/// `mag` is the magnitude `m` clamped sticky at [`mag_bound`]` + 1`.
pub open spec fn clamped(mag: u128, m: int) -> bool {
    &&& (m <= mag_bound() ==> mag == m)
    &&& (m > mag_bound() ==> mag == mag_bound() + 1)
}

fn exec_is_ws(c: char) -> (b: bool)
    ensures
        b == is_ws_char(c),
{
    c == ' ' || c == '\t'
}

fn exec_is_digit(c: char) -> (b: bool)
    ensures
        b == is_digit_char(c),
{
    let u = c as u32;
    48 <= u && u <= 57
}

fn exec_skip_ws(v: &Vec<char>, i: usize) -> (r: usize)
    requires
        i <= v@.len(),
    ensures
        i <= r <= v@.len(),
        r as int == skip_ws(v@, i as int),
{
    let mut j = i;
    while j < v.len() && exec_is_ws(v[j])
        invariant
            i <= j <= v@.len(),
            skip_ws(v@, i as int) == skip_ws(v@, j as int),
        decreases v@.len() - j,
    {
        j = j + 1;
    }
    j
}

fn exec_next_comma(v: &Vec<char>, i: usize) -> (r: usize)
    requires
        i <= v@.len(),
    ensures
        i <= r <= v@.len(),
        r as int == next_comma(v@, i as int),
{
    let mut j = i;
    while j < v.len() && v[j] != ','
        invariant
            i <= j <= v@.len(),
            next_comma(v@, i as int) == next_comma(v@, j as int),
        decreases v@.len() - j,
    {
        j = j + 1;
    }
    j
}

fn exec_scan_digits(v: &Vec<char>, i: usize, hi: usize) -> (r: usize)
    requires
        i <= hi <= v@.len(),
    ensures
        i <= r <= hi,
        r as int == scan_digits(v@, i as int, hi as int),
        forall|k: int| i <= k < r ==> is_digit_char(#[trigger] v@[k]),
{
    proof {
        lemma_scan_digits_bounds(v@, i as int, hi as int);
    }
    let mut j = i;
    while j < hi && exec_is_digit(v[j])
        invariant
            i <= j <= hi <= v@.len(),
            scan_digits(v@, i as int, hi as int) == scan_digits(v@, j as int, hi as int),
            forall|k: int| i <= k < j ==> is_digit_char(#[trigger] v@[k]),
        decreases hi - j,
    {
        j = j + 1;
    }
    j
}

/// Reads the digit run `v[lo..hi)` as a decimal magnitude, clamped sticky
/// just above the largest `isize` magnitude.
fn read_digits_clamped(v: &Vec<char>, lo: usize, hi: usize) -> (mag: u128)
    requires
        lo <= hi <= v@.len(),
        forall|k: int| lo <= k < hi ==> is_digit_char(#[trigger] v@[k]),
    ensures
        clamped(mag, digits_val(v@, lo as int, hi as int)),
        digits_val(v@, lo as int, hi as int) >= 0,
{
    proof {
        lemma_digits_val_nonneg(v@, lo as int, hi as int);
    }
    let bound: u128 = (isize::MAX as u128) + 1;
    let mut mag: u128 = 0;
    let mut k = lo;
    while k < hi
        invariant
            lo <= k <= hi <= v@.len(),
            forall|kk: int| lo <= kk < hi ==> is_digit_char(#[trigger] v@[kk]),
            bound == mag_bound(),
            digits_val(v@, lo as int, k as int) >= 0,
            clamped(mag, digits_val(v@, lo as int, k as int)),
        decreases hi - k,
    {
        proof {
            lemma_digits_val_nonneg(v@, lo as int, k as int);
        }
        let d: u128 = (v[k] as u32 as u128) - 48;
        if mag <= bound {
            let next = mag * 10 + d;
            if next > bound {
                mag = bound + 1;
            } else {
                mag = next;
            }
        }
        k = k + 1;
    }
    mag
}

/// Turns a sign and a clamped magnitude into an `isize` frame value, or
/// `None` when the value does not fit.
fn frame_value(neg: bool, mag: u128, Ghost(vabs): Ghost<int>) -> (r: Option<isize>)
    requires
        vabs >= 0,
        clamped(mag, vabs),
    ensures
        ({
            let val = if neg {
                -vabs
            } else {
                vabs
            };
            &&& (frame_fits(val) ==> r == Option::Some(val as isize))
            &&& (!frame_fits(val) ==> r is None)
        }),
{
    if neg {
        if mag <= (isize::MAX as u128) + 1 {
            let m = mag as i128;
            Some((-m) as isize)
        } else {
            None
        }
    } else {
        if mag <= isize::MAX as u128 {
            Some(mag as isize)
        } else {
            None
        }
    }
}

/// Parses one whole comma-separated piece `v[lo..hi)`.
///
/// * `None`: the piece is malformed (a syntax error).
/// * `Some(None)`: the piece follows the grammar, but a literal in it does
///   not fit an `isize`.
/// * `Some(Some(part))`: the piece parsed as `part`.
fn exec_parse_piece(v: &Vec<char>, lo: usize, hi: usize) -> (r: Option<Option<FrameSequencePart>>)
    requires
        lo <= hi <= v@.len(),
    ensures
        ({
            let sp = parse_piece(v@, lo as int, hi as int);
            match r {
                Option::None => sp is None,
                Option::Some(inner) => {
                    &&& sp is Some
                    &&& part_wf(sp.unwrap())
                    &&& match inner {
                        Option::None => !part_fits(sp.unwrap()),
                        Option::Some(p) => part_fits(sp.unwrap()) && p@ == sp.unwrap(),
                    }
                },
            }
        }),
{
    let a0 = exec_skip_ws(v, lo);
    let a = if a0 <= hi {
        a0
    } else {
        hi
    };
    match exec_parse_frame(v, a, hi) {
        None => None,
        Some((neg1, mag1, j)) => {
            let ghost left = parse_frame_at(v@, a as int, hi as int).unwrap().0;
            let ghost labs = if neg1 {
                -left
            } else {
                left
            };
            let j2 = exec_skip_ws(v, j);
            if j2 >= hi {
                match frame_value(neg1, mag1, Ghost(labs)) {
                    Some(f) => Some(Some(FrameSequencePart::Frame(f))),
                    None => Some(None),
                }
            } else if v[j2] == '-' {
                let k0 = exec_skip_ws(v, j2 + 1);
                let k = if k0 <= hi {
                    k0
                } else {
                    hi
                };
                match exec_parse_frame(v, k, hi) {
                    None => None,
                    Some((neg2, mag2, m)) => {
                        let ghost right = parse_frame_at(v@, k as int, hi as int).unwrap().0;
                        let ghost rabs = if neg2 {
                            -right
                        } else {
                            right
                        };
                        let m2 = exec_skip_ws(v, m);
                        if m2 >= hi {
                            match (
                                frame_value(neg1, mag1, Ghost(labs)),
                                frame_value(neg2, mag2, Ghost(rabs)),
                            ) {
                                (Some(l), Some(rr)) => Some(
                                    Some(
                                        FrameSequencePart::FrameRange {
                                            left: l,
                                            right: rr,
                                            modifier: None,
                                        },
                                    ),
                                ),
                                _ => Some(None),
                            }
                        } else if v[m2] == '@' {
                            let p = exec_skip_ws(v, m2 + 1);
                            if p >= hi {
                                None
                            } else if v[p] == 'b' {
                                if exec_skip_ws(v, p + 1) >= hi {
                                    match (
                                        frame_value(neg1, mag1, Ghost(labs)),
                                        frame_value(neg2, mag2, Ghost(rabs)),
                                    ) {
                                        (Some(l), Some(rr)) => Some(
                                            Some(
                                                FrameSequencePart::FrameRange {
                                                    left: l,
                                                    right: rr,
                                                    modifier: Some(RangeModifier::Binary),
                                                },
                                            ),
                                        ),
                                        _ => Some(None),
                                    }
                                } else {
                                    None
                                }
                            } else {
                                let dend = exec_scan_digits(v, p, hi);
                                if dend == p {
                                    None
                                } else {
                                    let smag = read_digits_clamped(v, p, dend);
                                    let ghost sval = digits_val(v@, p as int, dend as int);
                                    if smag > 0 && exec_skip_ws(v, dend) >= hi {
                                        match (
                                            frame_value(neg1, mag1, Ghost(labs)),
                                            frame_value(neg2, mag2, Ghost(rabs)),
                                            frame_value(false, smag, Ghost(sval)),
                                        ) {
                                            (Some(l), Some(rr), Some(st)) => Some(
                                                Some(
                                                    FrameSequencePart::FrameRange {
                                                        left: l,
                                                        right: rr,
                                                        modifier: Some(RangeModifier::Step(st)),
                                                    },
                                                ),
                                            ),
                                            _ => Some(None),
                                        }
                                    } else {
                                        None
                                    }
                                }
                            }
                        } else {
                            None
                        }
                    },
                }
            } else {
                None
            }
        },
    }
}

/// Parses a `Frame` token starting exactly at `i`; on success yields its
/// sign, its clamped magnitude and the index just past it.
fn exec_parse_frame(v: &Vec<char>, i: usize, hi: usize) -> (r: Option<(bool, u128, usize)>)
    requires
        i <= hi <= v@.len(),
    ensures
        ({
            let sp = parse_frame_at(v@, i as int, hi as int);
            match r {
                Option::None => sp is None,
                Option::Some((neg, mag, nxt)) => {
                    &&& sp is Some
                    &&& nxt == sp.unwrap().1
                    &&& i <= nxt <= hi
                    &&& ({
                        let m = if neg {
                            -sp.unwrap().0
                        } else {
                            sp.unwrap().0
                        };
                        m >= 0 && clamped(mag, m)
                    })
                },
            }
        }),
{
    let neg = i < hi && v[i] == '-';
    let d0 = if neg {
        i + 1
    } else {
        i
    };
    let dend = exec_scan_digits(v, d0, hi);
    if dend == d0 {
        None
    } else {
        proof {
            lemma_digits_val_nonneg(v@, d0 as int, dend as int);
        }
        let mag = read_digits_clamped(v, d0, dend);
        Some((neg, mag, dend))
    }
}

/// Fitting is preserved part by part.
proof fn lemma_parts_fit_push(ps: Seq<SpecPart>, p: SpecPart)
    ensures
        parts_fit(ps.push(p)) <==> (parts_fit(ps) && part_fits(p)),
{
    if parts_fit(ps) && part_fits(p) {
        assert forall|k: int| 0 <= k < ps.push(p).len() implies part_fits(
            #[trigger] ps.push(p)[k],
        ) by {
            if k < ps.len() {
                assert(ps.push(p)[k] == ps[k]);
            }
        }
    }
    if parts_fit(ps.push(p)) {
        assert forall|k: int| 0 <= k < ps.len() implies part_fits(#[trigger] ps[k]) by {
            assert(ps[k] == ps.push(p)[k]);
        }
        assert(part_fits(ps.push(p)[ps.len() as int]));
    }
}

/// Well-formedness is preserved part by part.
proof fn lemma_parts_wf_push(ps: Seq<SpecPart>, p: SpecPart)
    requires
        parts_wf(ps),
        part_wf(p),
    ensures
        parts_wf(ps.push(p)),
{
    assert forall|k: int| 0 <= k < ps.push(p).len() implies part_wf(#[trigger] ps.push(p)[k]) by {
        if k < ps.len() {
            assert(ps.push(p)[k] == ps[k]);
        }
    }
}

/// Joins the parts parsed so far with the outcome for the remaining text.
pub open spec fn combine_parse(prefix: Seq<SpecPart>, rest: SpecParseResult) -> SpecParseResult {
    match rest {
        SpecParseResult::Failed(p) => SpecParseResult::Failed(p),
        SpecParseResult::Parsed(r2) => SpecParseResult::Parsed(prefix + r2),
    }
}

/// The frame-sequence expression parser.
pub struct FrameSequenceParser {}

impl FrameSequenceParser {
    /// Parses a frame-sequence expression into its comma-separated parts.
    ///
    /// Succeeds exactly on the text that the grammar accepts and whose
    /// literals all fit an `isize`; a grammar violation reports the first
    /// malformed piece, and an unrepresentable literal in well-formed text
    /// reports overflow.
    pub fn parse(input: &str) -> (r: Result<Vec<FrameSequencePart>, FrameSequenceError>)
        ensures
            ({
                match spec_parse(input@) {
                    SpecParseResult::Failed(p) => r == Result::<
                        Vec<FrameSequencePart>,
                        FrameSequenceError,
                    >::Err(FrameSequenceError::SyntaxError { position: p as usize }),
                    SpecParseResult::Parsed(ps) => {
                        &&& (parts_fit(ps) ==> r is Ok && spec_parts_of(r.unwrap()@) == ps
                            && parts_wf(ps))
                        &&& (!parts_fit(ps) ==> r == Result::<
                            Vec<FrameSequencePart>,
                            FrameSequenceError,
                        >::Err(FrameSequenceError::ExpansionError))
                    },
                }
            }),
    {
        let v = crate::chars::to_char_vec(input);
        let mut parts: Vec<FrameSequencePart> = Vec::new();
        let mut overflow: bool = false;
        let ghost mut gparts: Seq<SpecPart> = Seq::empty();
        let mut i: usize = 0;
        proof {
            assert(combine_parse(gparts, spec_parse_from(v@, 0)) == spec_parse(v@)) by {
                match spec_parse_from(v@, 0) {
                    SpecParseResult::Failed(_) => {},
                    SpecParseResult::Parsed(r2) => {
                        assert(gparts + r2 =~= r2);
                    },
                }
            }
        }
        loop
            invariant
                v@ == input@,
                i <= v@.len(),
                spec_parse(v@) == combine_parse(gparts, spec_parse_from(v@, i as int)),
                parts_wf(gparts),
                !overflow ==> spec_parts_of(parts@) == gparts && parts_fit(gparts),
                overflow ==> !parts_fit(gparts),
            decreases v@.len() - i,
        {
            let j = exec_next_comma(&v, i);
            let ghost rest = spec_parse_from(v@, i as int);
            match exec_parse_piece(&v, i, j) {
                None => {
                    return Err(FrameSequenceError::SyntaxError { position: i });
                },
                Some(inner) => {
                    let ghost part = parse_piece(v@, i as int, j as int).unwrap();
                    let ghost gold = gparts;
                    proof {
                        gparts = gparts.push(part);
                        lemma_parts_fit_push(gold, part);
                        lemma_parts_wf_push(gold, part);
                        assert(gparts =~= gold + seq![part]);
                    }
                    match inner {
                        None => {
                            overflow = true;
                        },
                        Some(p) => {
                            proof {
                                if !overflow {
                                    assert(spec_parts_of(parts@.push(p)) =~= spec_parts_of(
                                        parts@,
                                    ).push(p@));
                                }
                            }
                            parts.push(p);
                        },
                    }
                    if j == v.len() {
                        proof {
                            assert(rest == SpecParseResult::Parsed(seq![part]));
                        }
                        if overflow {
                            return Err(FrameSequenceError::ExpansionError);
                        } else {
                            return Ok(parts);
                        }
                    }
                    proof {
                        let tail = spec_parse_from(v@, j + 1 as int);
                        assert(rest == combine_parse(seq![part], tail));
                        match tail {
                            SpecParseResult::Failed(_) => {},
                            SpecParseResult::Parsed(r2) => {
                                assert(gold + (seq![part] + r2) =~= gparts + r2);
                            },
                        }
                    }
                    i = j + 1;
                },
            }
        }
    }
}

/// Turns a frame-sequence expression into the concrete, duplicate-free
/// list of frames it names.
///
/// The text is parsed against the grammar, every part is expanded into its
/// run of frames, the runs are concatenated in source order, and duplicates
/// are dropped keeping each first occurrence.  Text that breaks the grammar
/// reports where; a literal too large for the platform reports overflow.
pub fn parse_frame_sequence(input: &str) -> (r: Result<Vec<isize>, FrameSequenceError>)
    ensures
        r matches Ok(v) ==> crate::expand::as_ints(v@).no_duplicates(),
        ({
            match spec_parse(input@) {
                SpecParseResult::Failed(p) => r == Result::<
                    Vec<isize>,
                    FrameSequenceError,
                >::Err(FrameSequenceError::SyntaxError { position: p as usize }),
                SpecParseResult::Parsed(ps) => {
                    &&& (parts_fit(ps) ==> r is Ok && crate::expand::as_ints(r.unwrap()@)
                        == crate::expand::dedup_frames(crate::expand::expand_parts_frames(ps)))
                    &&& (!parts_fit(ps) ==> r == Result::<
                        Vec<isize>,
                        FrameSequenceError,
                    >::Err(FrameSequenceError::ExpansionError))
                },
            }
        }),
{
    match FrameSequenceParser::parse(input) {
        Ok(parts) => {
            let frames = crate::expand::frame_sequence_token_tree_to_frames(&parts);
            proof {
                crate::expand::lemma_dedup_no_duplicates(crate::expand::as_ints(frames@));
            }
            Ok(crate::expand::remove_duplicates(frames))
        },
        Err(e) => Err(e),
    }
}

} // verus!
