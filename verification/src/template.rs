//! File-name templates: substituting frame numbers for `@` placeholders.
//!
//! A template such as `foo.@.nsi` or `foo.@3.nsi` names one output file per
//! frame.  The first `@` of the template decides the placeholder: when a
//! digit `1`–`9` follows immediately, the placeholder is that two-character
//! token and frames are zero-padded to that many digits; otherwise the
//! placeholder is `@` alone and frames print in their natural width.  Every
//! occurrence of the placeholder is replaced for every frame.

use vstd::prelude::*;

use crate::chars::{push_char, to_char_vec};
use crate::frame_sequence_parser::{
    digit_val, digits_val, is_digit_char, parse_frame_at, scan_digits,
};

verus! {

// ---------------------------------------------------------------------------
// Decimal formatting, specified.
// ---------------------------------------------------------------------------

/// The character for one decimal digit.
pub open spec fn digit_char_of(d: int) -> char {
    if d == 0 {
        '0'
    } else if d == 1 {
        '1'
    } else if d == 2 {
        '2'
    } else if d == 3 {
        '3'
    } else if d == 4 {
        '4'
    } else if d == 5 {
        '5'
    } else if d == 6 {
        '6'
    } else if d == 7 {
        '7'
    } else if d == 8 {
        '8'
    } else {
        '9'
    }
}

/// The decimal digits of a non-negative number, most significant first.
pub open spec fn dec_digits(n: int) -> Seq<char>
    recommends
        n >= 0,
    decreases n,
{
    if n < 10 {
        seq![digit_char_of(n)]
    } else {
        dec_digits(n / 10).push(digit_char_of(n % 10))
    }
}

/// `n` zero characters (none when `n` is not positive).
pub open spec fn zeros(n: int) -> Seq<char> {
    if n <= 0 {
        Seq::empty()
    } else {
        Seq::new(n as nat, |i: int| '0')
    }
}

/// The decimal rendering of `v`, zero-padded to `width` characters; a sign
/// counts towards the width, and a value wider than `width` is never
/// truncated.  Width `0` is the natural, unpadded rendering.
pub open spec fn padded_dec_str(v: int, width: int) -> Seq<char> {
    if v < 0 {
        seq!['-'] + (zeros(width - 1 - dec_digits(-v).len()) + dec_digits(-v))
    } else {
        zeros(width - dec_digits(v).len()) + dec_digits(v)
    }
}

/// The digit characters render their own value.
proof fn lemma_digit_char_val(d: int)
    requires
        0 <= d <= 9,
    ensures
        is_digit_char(digit_char_of(d)),
        digit_val(digit_char_of(d)) == d,
{
}

/// The value of a digit run depends only on the characters it covers.
proof fn lemma_digits_val_congruent(s1: Seq<char>, s2: Seq<char>, lo: int, hi: int)
    requires
        0 <= lo <= hi,
        hi <= s1.len(),
        hi <= s2.len(),
        forall|k: int| lo <= k < hi ==> s1[k] == s2[k],
    ensures
        digits_val(s1, lo, hi) == digits_val(s2, lo, hi),
    decreases hi - lo,
{
    if lo < hi {
        lemma_digits_val_congruent(s1, s2, lo, hi - 1);
    }
}

/// Leading zeros do not change the value of a digit run.
proof fn lemma_digits_val_zeros(s: Seq<char>, lo: int, m: int, hi: int)
    requires
        0 <= lo <= m <= hi <= s.len(),
        forall|k: int| lo <= k < m ==> s[k] == '0',
    ensures
        digits_val(s, lo, hi) == digits_val(s, m, hi),
    decreases hi - lo,
{
    if lo < m {
        lemma_digits_val_step(s, lo, hi);
        lemma_digits_val_zeros(s, lo + 1, m, hi);
    }
}

/// Peeling one leading zero off a digit run.
proof fn lemma_digits_val_step(s: Seq<char>, lo: int, hi: int)
    requires
        0 <= lo < hi <= s.len(),
        s[lo] == '0',
    ensures
        digits_val(s, lo, hi) == digits_val(s, lo + 1, hi),
    decreases hi - lo,
{
    if lo + 1 < hi {
        lemma_digits_val_step(s, lo, hi - 1);
    } else {
        assert(digits_val(s, lo, lo) == 0);
        assert(digits_val(s, lo + 1, hi) == 0);
        assert(digit_val('0') == 0);
    }
}

/// The decimal rendering of a non-negative number is non-empty, is all
/// digits, and reads back as the same number.
pub proof fn lemma_dec_digits(n: int)
    requires
        n >= 0,
    ensures
        dec_digits(n).len() >= 1,
        forall|k: int| 0 <= k < dec_digits(n).len() ==> is_digit_char(#[trigger] dec_digits(n)[k]),
        digits_val(dec_digits(n), 0, dec_digits(n).len() as int) == n,
    decreases n,
{
    if n < 10 {
        lemma_digit_char_val(n);
        assert(digits_val(dec_digits(n), 0, 0) == 0);
    } else {
        lemma_dec_digits(n / 10);
        lemma_digit_char_val(n % 10);
        let d = dec_digits(n / 10);
        let whole = dec_digits(n);
        assert(whole == d.push(digit_char_of(n % 10)));
        lemma_digits_val_congruent(whole, d, 0, d.len() as int);
        assert(digits_val(whole, 0, whole.len() as int) == digits_val(
            whole,
            0,
            whole.len() - 1,
        ) * 10 + digit_val(whole[whole.len() - 1]));
        vstd::arithmetic::div_mod::lemma_fundamental_div_mod(n, 10);
    }
}

/// The padded rendering of a frame parses back as exactly that frame: the
/// whole string is one `Frame` token of the frame-sequence grammar, and its
/// value is the frame.  Padding therefore never loses information.
pub proof fn lemma_format_roundtrip(v: int, width: int)
    ensures
        parse_frame_at(padded_dec_str(v, width), 0, padded_dec_str(v, width).len() as int)
            == Option::Some((v, padded_dec_str(v, width).len() as int)),
{
    let s = padded_dec_str(v, width);
    let n = s.len() as int;
    if v < 0 {
        let d = dec_digits(-v);
        lemma_dec_digits(-v);
        let z = zeros(width - 1 - d.len());
        assert(s[0] == '-');
        assert(forall|k: int| 1 <= k < n ==> is_digit_char(#[trigger] s[k])) by {
            assert forall|k: int| 1 <= k < n implies is_digit_char(#[trigger] s[k]) by {
                if k < 1 + z.len() {
                    assert(s[k] == '0');
                } else {
                    assert(s[k] == d[k - 1 - z.len()]);
                }
            }
        }
        lemma_scan_digits_full(s, 1, n);
        assert(n > 1);
        lemma_digits_val_zeros(s, 1, 1 + z.len() as int, n);
        lemma_digits_val_congruent_offset(s, d, 1 + z.len() as int, n);
        assert(digits_val(s, 1, n) == -v);
    } else {
        let d = dec_digits(v);
        lemma_dec_digits(v);
        let z = zeros(width - d.len());
        assert(forall|k: int| 0 <= k < n ==> is_digit_char(#[trigger] s[k])) by {
            assert forall|k: int| 0 <= k < n implies is_digit_char(#[trigger] s[k]) by {
                if k < z.len() {
                    assert(s[k] == '0');
                } else {
                    assert(s[k] == d[k - z.len()]);
                }
            }
        }
        assert(s[0] != '-');
        lemma_scan_digits_full(s, 0, n);
        assert(n >= 1);
        lemma_digits_val_zeros(s, 0, z.len() as int, n);
        lemma_digits_val_congruent_offset(s, d, z.len() as int, n);
        assert(digits_val(s, 0, n) == v);
    }
}

/// Scanning a run that is all digits reaches its end.
proof fn lemma_scan_digits_full(s: Seq<char>, i: int, hi: int)
    requires
        0 <= i <= hi <= s.len(),
        forall|k: int| i <= k < hi ==> is_digit_char(#[trigger] s[k]),
    ensures
        scan_digits(s, i, hi) == hi,
    decreases hi - i,
{
    if i < hi {
        lemma_scan_digits_full(s, i + 1, hi);
    }
}

/// A digit run that copies `d` shifted by an offset reads back as `d`.
proof fn lemma_digits_val_congruent_offset(s: Seq<char>, d: Seq<char>, off: int, hi: int)
    requires
        0 <= off <= hi <= s.len(),
        hi - off == d.len(),
        forall|k: int| off <= k < hi ==> s[k] == d[k - off],
    ensures
        digits_val(s, off, hi) == digits_val(d, 0, d.len() as int),
    decreases hi - off,
{
    if off < hi {
        lemma_digits_val_congruent_offset(s.take(hi - 1), d.take(d.len() - 1), off, hi - 1);
        assert(digits_val(s.take(hi - 1), off, hi - 1) == digits_val(s, off, hi - 1)) by {
            lemma_digits_val_congruent(s.take(hi - 1), s, off, hi - 1);
        }
        assert(digits_val(d.take(d.len() - 1), 0, d.len() - 1) == digits_val(
            d,
            0,
            d.len() - 1,
        )) by {
            lemma_digits_val_congruent(d.take(d.len() - 1), d, 0, d.len() - 1);
        }
    }
}

// ---------------------------------------------------------------------------
// Decimal formatting, executed.
// ---------------------------------------------------------------------------

/// The character for one decimal digit.
fn exec_digit_char(d: u128) -> (c: char)
    requires
        d < 10,
    ensures
        c == digit_char_of(d as int),
{
    if d == 0 {
        '0'
    } else if d == 1 {
        '1'
    } else if d == 2 {
        '2'
    } else if d == 3 {
        '3'
    } else if d == 4 {
        '4'
    } else if d == 5 {
        '5'
    } else if d == 6 {
        '6'
    } else if d == 7 {
        '7'
    } else if d == 8 {
        '8'
    } else {
        '9'
    }
}

/// Renders `frame` as decimal text, zero-padded to `pad` characters when
/// `pad` is positive.
#[verifier::rlimit(80)]
pub fn format_frame(frame: isize, pad: usize) -> (s: String)
    ensures
        s@ == padded_dec_str(frame as int, pad as int),
{
    let neg = frame < 0;
    let mag: u128 = if neg {
        (-(frame as i128)) as u128
    } else {
        frame as u128
    };
    // Digits of the magnitude, least significant first.
    let mut rev: Vec<char> = Vec::new();
    let mut m: u128 = mag;
    proof {
        assert(dec_digits(mag as int) =~= dec_digits(m as int) + rev@.reverse());
    }
    while m >= 10
        invariant
            dec_digits(mag as int) == dec_digits(m as int) + rev@.reverse(),
        decreases m,
    {
        let d = exec_digit_char(m % 10);
        rev.push(d);
        proof {
            assert(rev@.reverse() =~= seq![d] + rev@.drop_last().reverse());
            assert(dec_digits(m as int) == dec_digits(m as int / 10).push(
                digit_char_of(m as int % 10),
            ));
            assert(dec_digits(m as int / 10) + (seq![d] + rev@.drop_last().reverse())
                =~= (dec_digits(m as int / 10).push(d)) + rev@.drop_last().reverse());
        }
        m = m / 10;
    }
    let d = exec_digit_char(m);
    rev.push(d);
    proof {
        assert(rev@.reverse() =~= seq![d] + rev@.drop_last().reverse());
        assert(dec_digits(m as int) =~= seq![d]);
        assert(seq![d] + rev@.drop_last().reverse() =~= dec_digits(m as int)
            + rev@.drop_last().reverse());
        assert(dec_digits(mag as int) == rev@.reverse());
    }
    // Assemble: sign, padding zeros, then the digits most significant
    // first.
    let dcount = rev.len();
    let sign: usize = if neg {
        1
    } else {
        0
    };
    let mut s = String::new();
    if neg {
        push_char(&mut s, '-');
    }
    let zcount: usize = if pad > sign && pad - sign > dcount {
        pad - sign - dcount
    } else {
        0
    };
    let mut z: usize = 0;
    while z < zcount
        invariant
            z <= zcount,
            s@.len() == sign + z,
            sign == 1 ==> s@[0] == '-',
            forall|k: int| sign <= k < s@.len() ==> #[trigger] s@[k] == '0',
        decreases zcount - z,
    {
        push_char(&mut s, '0');
        z = z + 1;
    }
    proof {
        if neg {
            assert(s@ =~= seq!['-'] + zeros(zcount as int));
        } else {
            assert(s@ =~= zeros(zcount as int));
        }
        assert(zeros(zcount as int) == zeros(
            pad as int - sign as int - dec_digits(mag as int).len(),
        )) by {
            assert(dec_digits(mag as int).len() == dcount as int);
            if pad > dcount + sign {
            } else {
                assert(zeros(zcount as int) =~= zeros(
                    pad as int - sign as int - dec_digits(mag as int).len(),
                ));
            }
        }
    }
    let ghost before = s@;
    let mut k: usize = 0;
    while k < dcount
        invariant
            dcount == rev@.len(),
            k <= dcount,
            s@ == before + rev@.reverse().take(k as int),
        decreases dcount - k,
    {
        push_char(&mut s, rev[dcount - 1 - k]);
        proof {
            assert(rev@.reverse()[k as int] == rev@[dcount - 1 - k]);
            assert(s@ =~= before + rev@.reverse().take(k + 1));
        }
        k = k + 1;
    }
    proof {
        assert(rev@.reverse().take(dcount as int) =~= rev@.reverse());
        assert(s@ =~= padded_dec_str(frame as int, pad as int));
    }
    s
}

// ---------------------------------------------------------------------------
// Placeholder substitution.
// ---------------------------------------------------------------------------

/// First index `j >= i` with `s[j] == '@'`, or `s.len()`.
pub open spec fn find_at(s: Seq<char>, i: int) -> int
    decreases s.len() - i,
    when 0 <= i <= s.len()
{
    if i < s.len() && s[i] != '@' {
        find_at(s, i + 1)
    } else {
        i
    }
}

/// A digit that sets a zero-padding width.
pub open spec fn is_pad_digit(c: char) -> bool {
    '1' <= c && c <= '9'
}

/// The zero-padding width the template asks for: the digit right after its
/// first `@`, or `0` for no padding.
pub open spec fn pad_width_of(s: Seq<char>) -> int {
    let p = find_at(s, 0);
    if p + 1 < s.len() && is_pad_digit(s[p + 1]) {
        digit_val(s[p + 1])
    } else {
        0
    }
}

/// The placeholder token of the template: `@N` when a padding digit
/// follows the first `@`, else `@` alone.
pub open spec fn placeholder_of(s: Seq<char>) -> Seq<char> {
    let p = find_at(s, 0);
    if p + 1 < s.len() && is_pad_digit(s[p + 1]) {
        seq!['@', s[p + 1]]
    } else {
        seq!['@']
    }
}

/// Every non-overlapping occurrence of `tok` in `s`, scanned left to
/// right, replaced by `rep`.
pub open spec fn replace_all(s: Seq<char>, tok: Seq<char>, rep: Seq<char>) -> Seq<char>
    decreases s.len(),
    when tok.len() >= 1
{
    if s.len() < tok.len() {
        s
    } else if s.subrange(0, tok.len() as int) == tok {
        rep + replace_all(s.skip(tok.len() as int), tok, rep)
    } else {
        seq![s[0]] + replace_all(s.skip(1), tok, rep)
    }
}

/// What substituting `frame` into `template` must yield: the template
/// itself when it holds no `@`, else the template with every occurrence of
/// its placeholder replaced by the (possibly padded) decimal frame number.
pub open spec fn spec_substitute(template: Seq<char>, frame: int) -> Seq<char> {
    if find_at(template, 0) == template.len() {
        template
    } else {
        replace_all(template, placeholder_of(template), padded_dec_str(frame, pad_width_of(template)))
    }
}

/// The padding width a character sets, if it is a padding digit.
fn pad_digit_value(c: char) -> (r: Option<usize>)
    ensures
        match r {
            Option::Some(w) => is_pad_digit(c) && w == digit_val(c),
            Option::None => !is_pad_digit(c),
        },
{
    let u = c as u32;
    if 49 <= u && u <= 57 {
        Some((u - 48) as usize)
    } else {
        None
    }
}

pub(crate) fn exec_find_at(v: &Vec<char>, i: usize) -> (r: usize)
    requires
        i <= v@.len(),
    ensures
        i <= r <= v@.len(),
        r as int == find_at(v@, i as int),
        r < v@.len() ==> v@[r as int] == '@',
{
    let mut j = i;
    while j < v.len() && v[j] != '@'
        invariant
            i <= j <= v@.len(),
            find_at(v@, i as int) == find_at(v@, j as int),
        decreases v@.len() - j,
    {
        j = j + 1;
    }
    j
}

/// Substitutes one frame number into the template: every occurrence of the
/// placeholder is replaced; a template without `@` comes back unchanged.
pub fn substitute_frame_number(template: &str, frame: isize) -> (out: String)
    ensures
        out@ == spec_substitute(template@, frame as int),
{
    let t = to_char_vec(template);
    let n = t.len();
    let p = exec_find_at(&t, 0);
    if p == n {
        return template.to_owned();
    }
    // The placeholder and the text that replaces it.
    let (tok_len, pad): (usize, usize) = if p + 1 < n {
        match pad_digit_value(t[p + 1]) {
            Some(w) => (2, w),
            None => (1, 0),
        }
    } else {
        (1, 0)
    };
    proof {
        assert(pad as int == pad_width_of(t@));
        assert(tok_len as int == placeholder_of(t@).len());
    }
    let rep = format_frame(frame, pad);
    let ghost tok = placeholder_of(t@);
    let mut out = String::new();
    let mut i: usize = 0;
    proof {
        assert(Seq::<char>::empty() + replace_all(t@.skip(0), tok, rep@) =~= replace_all(
            t@,
            tok,
            rep@,
        )) by {
            assert(t@.skip(0) =~= t@);
        }
    }
    while i < n
        invariant
            n == t@.len(),
            i <= n,
            1 <= tok_len <= 2,
            tok_len as int == tok.len(),
            tok == placeholder_of(t@),
            tok[0] == '@',
            p < n,
            tok_len == 2 ==> p + 1 < n && tok[1] == t@[p as int + 1],
            out@ + replace_all(t@.skip(i as int), tok, rep@) == replace_all(t@, tok, rep@),
        decreases n - i,
    {
        let ghost remaining = t@.skip(i as int);
        let c = t[i];
        let matches_tok: bool = if tok_len == 1 {
            c == '@'
        } else {
            c == '@' && i + 1 < n && t[i + 1] == t[p + 1]
        };
        if matches_tok {
            proof {
                assert(remaining.len() >= tok.len());
                assert(remaining.subrange(0, tok.len() as int) =~= tok);
                assert(remaining.skip(tok.len() as int) =~= t@.skip(i + tok_len));
            }
            let mut rep_clone = rep.clone();
            out.append(rep_clone.as_str());
            i = i + tok_len;
        } else {
            proof {
                if remaining.len() >= tok.len() {
                    assert(remaining.subrange(0, tok.len() as int) != tok) by {
                        if remaining.subrange(0, tok.len() as int) == tok {
                            assert(remaining[0] == tok[0]);
                            if tok_len == 2 {
                                assert(remaining[1] == tok[1]);
                            }
                        }
                    }
                    assert(remaining.skip(1) =~= t@.skip(i + 1));
                    assert(replace_all(remaining, tok, rep@) == seq![remaining[0]]
                        + replace_all(t@.skip(i + 1), tok, rep@));
                } else {
                    assert(remaining.len() == 1 && tok_len == 2);
                    assert(replace_all(remaining, tok, rep@) == remaining);
                    assert(t@.skip(i + 1) =~= Seq::<char>::empty());
                    assert(replace_all(t@.skip(i + 1), tok, rep@) == t@.skip(i + 1));
                    assert(remaining =~= seq![remaining[0]] + t@.skip(i + 1));
                }
            }
            push_char(&mut out, c);
            proof {
                assert(out@ + replace_all(t@.skip(i + 1), tok, rep@) =~= (out@.drop_last()
                    + (seq![remaining[0]] + replace_all(t@.skip(i + 1), tok, rep@))));
            }
            i = i + 1;
        }
    }
    proof {
        assert(t@.skip(n as int) =~= Seq::<char>::empty());
        assert(replace_all(t@.skip(n as int), tok, rep@) == t@.skip(n as int));
        assert(out@ + Seq::<char>::empty() =~= out@);
        assert(find_at(t@, 0) < t@.len());
    }
    out
}

/// Substitution was required — the frame list was not empty — but the
/// template holds no `@` placeholder to substitute into.
#[derive(Debug, PartialEq, Eq, Structural)]
pub struct MissingPlaceholderError;

/// Substitutes every frame into the template, one output name per frame.
///
/// Fails exactly when frames were supplied but the template holds no
/// placeholder; without frames the result is empty, whatever the template.
pub fn substitute_frame_numbers(template: &str, frames: &Vec<isize>) -> (r: Result<
    Vec<String>,
    MissingPlaceholderError,
>)
    ensures
        ({
            let ph = find_at(template@, 0) < template@.len();
            &&& (!ph && frames@.len() > 0 ==> r == Result::<
                Vec<String>,
                MissingPlaceholderError,
            >::Err(MissingPlaceholderError))
            &&& (ph || frames@.len() == 0 ==> r is Ok && r.unwrap()@.len() == frames@.len()
                && (forall|k: int|
                    0 <= k < frames@.len() ==> #[trigger] r.unwrap()@[k]@ == spec_substitute(
                        template@,
                        frames@[k] as int,
                    )))
        }),
{
    let t = to_char_vec(template);
    let p = exec_find_at(&t, 0);
    if p == t.len() && frames.len() > 0 {
        return Err(MissingPlaceholderError);
    }
    let mut out: Vec<String> = Vec::new();
    let mut i: usize = 0;
    while i < frames.len()
        invariant
            i <= frames@.len(),
            out@.len() == i,
            forall|k: int|
                0 <= k < i ==> #[trigger] out@[k]@ == spec_substitute(
                    template@,
                    frames@[k] as int,
                ),
        decreases frames@.len() - i,
    {
        out.push(substitute_frame_number(template, frames[i]));
        i = i + 1;
    }
    Ok(out)
}

} // verus!
