//! The CSS numeric token grammar: a single number is a bare integer, a bare
//! decimal, or an integral percentage.  The grammar is strict: an optional
//! leading sign, then digits, an optional single `.` that must be followed by
//! at least one digit, and an optional trailing `%` that may not follow a
//! decimal point.  Everything is specified over the byte view of the input;
//! all characters the grammar admits are ASCII, and any non-ASCII input is
//! rejected by the character-class check.

use vstd::prelude::*;
use vstd::string::StringSliceAdditionalSpecFns;

verus! {

/// Byte value of `%`.
pub const BYTE_PERCENT: u8 = 37;

/// Byte value of `+`.
pub const BYTE_PLUS: u8 = 43;

/// Byte value of `-`.
pub const BYTE_MINUS: u8 = 45;

/// Byte value of `.`.
pub const BYTE_DOT: u8 = 46;

/// The scale of the stored fractional digits of a float token: twelve
/// decimal digits.
pub const FRAC_SCALE: u64 = 1_000_000_000_000;

/// Errors surfaced by the numeric and color-function parsers.
#[derive(Clone, Copy, Debug, PartialEq, Eq, Structural)]
pub enum CSSParseError {
    /// A character outside the permitted set appears in a numeric token.
    InvalidNumericCharacters,
    /// The character set is right but the shape is malformed: several signs
    /// or dots, a fractional percentage, an empty token, or a magnitude
    /// beyond the signed 64-bit domain of a token.
    InvalidNumericSyntax,
    /// Wrong function prefix, bracketing or field count, or a numeric token
    /// of the wrong kind for its position.
    InvalidColorSyntax,
}

/// The payload of a float token: a sign, an integer part, and the first
/// twelve fractional digits, stored scaled so that `frac` counts units of
/// 10^-12.  Fractional digits beyond the twelfth are ignored; they lie far
/// below the precision any consumer of a token reads.
#[derive(Clone, Copy, Debug, PartialEq, Eq, Structural)]
pub struct CSSFloat {
    /// True when the token carries a leading `-`.
    pub neg: bool,
    /// The integer part; at most `i64::MAX`.
    pub whole: u64,
    /// The first twelve fractional digits, as a numerator over 10^12.
    pub frac: u64,
}

/// A classified CSS numeric token.
#[derive(Clone, Copy, Debug, PartialEq, Eq, Structural)]
pub enum CSSNumeric {
    /// A bare integer such as `104` or `-12`.
    Integer(i64),
    /// A decimal number such as `.48235` or `-1.04`.
    Float(CSSFloat),
    /// An integral percentage such as `48%`; the value is the number before
    /// the `%`, which may lie outside 0..=100 before the caller clamps it.
    Percentage(i64),
}

/// The characters a numeric token may contain: digits, `.`, `+`, `-`, `%`.
pub open spec fn is_permitted_byte(b: u8) -> bool {
    b == BYTE_PERCENT || b == BYTE_PLUS || b == BYTE_MINUS || b == BYTE_DOT || is_digit_byte(b)
}

/// An ASCII decimal digit.
pub open spec fn is_digit_byte(b: u8) -> bool {
    48 <= b && b <= 57
}

pub open spec fn all_permitted(s: Seq<u8>) -> bool {
    forall|i: int| 0 <= i < s.len() ==> is_permitted_byte(#[trigger] s[i])
}

pub open spec fn all_digits(s: Seq<u8>) -> bool {
    forall|i: int| 0 <= i < s.len() ==> is_digit_byte(#[trigger] s[i])
}

/// Whether the token opens with a sign character.
pub open spec fn has_sign(s: Seq<u8>) -> bool {
    s.len() > 0 && (s[0] == BYTE_PLUS || s[0] == BYTE_MINUS)
}

/// Whether the token opens with a minus sign.
pub open spec fn is_neg(s: Seq<u8>) -> bool {
    s.len() > 0 && s[0] == BYTE_MINUS
}

/// The token with its sign stripped.
pub open spec fn body(s: Seq<u8>) -> Seq<u8> {
    if has_sign(s) {
        s.skip(1)
    } else {
        s
    }
}

/// The index of the first occurrence of `b`, or the length when absent.
pub open spec fn find_byte(s: Seq<u8>, b: u8) -> int
    decreases s.len(),
{
    if s.len() == 0 {
        0
    } else if s[0] == b {
        0
    } else {
        1 + find_byte(s.skip(1), b)
    }
}

pub proof fn lemma_find_byte(s: Seq<u8>, b: u8)
    ensures
        0 <= find_byte(s, b) <= s.len(),
        find_byte(s, b) < s.len() ==> s[find_byte(s, b)] == b,
        forall|i: int| 0 <= i < find_byte(s, b) ==> s[i] != b,
    decreases s.len(),
{
    if s.len() != 0 && s[0] != b {
        lemma_find_byte(s.skip(1), b);
        assert forall|i: int| 0 <= i < find_byte(s, b) implies s[i] != b by {
            if i > 0 {
                assert(s.skip(1)[i - 1] == s[i]);
            }
        }
        if find_byte(s, b) < s.len() {
            assert(s.skip(1)[find_byte(s, b) - 1] == s[find_byte(s, b)]);
        }
    }
}

/// A well-shaped bare integer: an optional sign, then at least one digit.
pub open spec fn integer_shaped(s: Seq<u8>) -> bool {
    body(s).len() >= 1 && all_digits(body(s))
}

/// A well-shaped percentage: a well-shaped integer followed by `%`.
pub open spec fn percentage_shaped(s: Seq<u8>) -> bool {
    s.len() >= 1 && s.last() == BYTE_PERCENT && integer_shaped(s.drop_last())
}

/// A well-shaped float: an optional sign, optional integer digits, a single
/// `.`, and at least one fractional digit.
pub open spec fn float_shaped(s: Seq<u8>) -> bool {
    let b = body(s);
    let d = find_byte(b, BYTE_DOT);
    d + 1 < b.len() && all_digits(b.take(d)) && all_digits(b.skip(d + 1))
}

/// The value of a digit string, most significant digit first.
pub open spec fn digits_val(s: Seq<u8>) -> int
    decreases s.len(),
{
    if s.len() == 0 {
        0
    } else {
        digits_val(s.drop_last()) * 10 + (s.last() - 48)
    }
}

pub open spec fn pow10(k: nat) -> int
    decreases k,
{
    if k == 0 {
        1
    } else {
        10 * pow10((k - 1) as nat)
    }
}

/// The value of the first twelve fractional digits of `s`, as a numerator
/// over 10^12; shorter strings are padded with trailing zeros.
pub open spec fn frac12_val(s: Seq<u8>) -> int {
    if s.len() >= 12 {
        digits_val(s.take(12))
    } else {
        digits_val(s) * pow10((12 - s.len()) as nat)
    }
}

/// What the numeric token parser returns, over the byte view of its input:
/// first the character class is policed, then exactly one of the three token
/// shapes must fit.  A magnitude beyond the signed 64-bit domain of the
/// integer part is rejected as malformed.
pub open spec fn spec_parse_number(s: Seq<u8>) -> Result<CSSNumeric, CSSParseError> {
    if !all_permitted(s) {
        Err(CSSParseError::InvalidNumericCharacters)
    } else if integer_shaped(s) {
        let v = digits_val(body(s));
        if v > i64::MAX {
            Err(CSSParseError::InvalidNumericSyntax)
        } else if is_neg(s) {
            Ok(CSSNumeric::Integer((-v) as i64))
        } else {
            Ok(CSSNumeric::Integer(v as i64))
        }
    } else if percentage_shaped(s) {
        let v = digits_val(body(s.drop_last()));
        if v > i64::MAX {
            Err(CSSParseError::InvalidNumericSyntax)
        } else if is_neg(s) {
            Ok(CSSNumeric::Percentage((-v) as i64))
        } else {
            Ok(CSSNumeric::Percentage(v as i64))
        }
    } else if float_shaped(s) {
        let b = body(s);
        let d = find_byte(b, BYTE_DOT);
        let w = digits_val(b.take(d));
        if w > i64::MAX {
            Err(CSSParseError::InvalidNumericSyntax)
        } else {
            Ok(
                CSSNumeric::Float(
                    CSSFloat { neg: is_neg(s), whole: w as u64, frac: frac12_val(b.skip(d + 1)) as u64 },
                ),
            )
        }
    } else {
        Err(CSSParseError::InvalidNumericSyntax)
    }
}

pub proof fn lemma_digits_val_bounds(s: Seq<u8>)
    requires
        all_digits(s),
    ensures
        0 <= digits_val(s) < pow10(s.len()),
    decreases s.len(),
{
    if s.len() > 0 {
        assert(all_digits(s.drop_last())) by {
            assert(forall|i: int|
                0 <= i < s.len() - 1 ==> #[trigger] s.drop_last()[i] == s[i]);
        }
        lemma_digits_val_bounds(s.drop_last());
        assert(pow10(s.len()) == 10 * pow10((s.len() - 1) as nat));
    }
}

pub proof fn lemma_pow10_pos(k: nat)
    ensures
        pow10(k) >= 1,
    decreases k,
{
    if k > 0 {
        lemma_pow10_pos((k - 1) as nat);
    }
}

pub proof fn lemma_pow10_add(a: nat, b: nat)
    ensures
        pow10(a) * pow10(b) == pow10(a + b),
    decreases a,
{
    if a == 0 {
        assert(pow10(0) * pow10(b) == pow10(b));
    } else {
        lemma_pow10_add((a - 1) as nat, b);
        assert(pow10(a) * pow10(b) == 10 * pow10((a - 1) as nat) * pow10(b));
        assert(10 * pow10((a - 1) as nat) * pow10(b) == 10 * (pow10((a - 1) as nat) * pow10(b)))
            by (nonlinear_arith);
    }
}

/// Appending one digit multiplies the value by ten and adds the digit.
pub proof fn lemma_digits_val_push(s: Seq<u8>, b: u8)
    ensures
        digits_val(s.push(b)) == digits_val(s) * 10 + (b - 48),
{
    assert(s.push(b).drop_last() =~= s);
    assert(s.push(b).last() == b);
}

/// The value of a digit-string prefix never exceeds the value of the whole.
pub proof fn lemma_digits_val_prefix_le(s: Seq<u8>, k: int)
    requires
        all_digits(s),
        0 <= k <= s.len(),
    ensures
        digits_val(s.take(k)) <= digits_val(s),
    decreases s.len() - k,
{
    assert(all_digits(s.take(k))) by {
        assert(forall|i: int| 0 <= i < k ==> #[trigger] s.take(k)[i] == s[i]);
    }
    if k < s.len() {
        lemma_digits_val_prefix_le(s, k + 1);
        assert(s.take(k + 1).drop_last() =~= s.take(k));
        assert(s.take(k + 1).last() == s[k]);
        lemma_digits_val_bounds(s.take(k));
        assert(digits_val(s.take(k + 1)) == digits_val(s.take(k)) * 10 + (s[k] - 48));
        assert(digits_val(s.take(k)) * 10 >= digits_val(s.take(k))) by (nonlinear_arith)
            requires
                digits_val(s.take(k)) >= 0,
        ;
    } else {
        assert(s.take(k) =~= s);
    }
}

/// A token that ends in a character other than a digit is neither a
/// well-shaped integer nor a well-shaped float.
pub proof fn lemma_shapes_end_in_digit(s: Seq<u8>)
    ensures
        integer_shaped(s) ==> is_digit_byte(s.last()),
        float_shaped(s) ==> is_digit_byte(s.last()),
{
    let b = body(s);
    if integer_shaped(s) {
        assert(b.last() == s.last());
    }
    if float_shaped(s) {
        let d = find_byte(b, BYTE_DOT);
        lemma_find_byte(b, BYTE_DOT);
        let f = b.skip(d + 1);
        assert(f.last() == b.last());
        assert(b.last() == s.last());
        assert(is_digit_byte(f[f.len() - 1]));
    }
}

/// The largest `u64` digit accumulator that can take one more digit and
/// stay within `i64::MAX`.
const ACC_CAP: u64 = 922_337_203_685_477_580;

/// Accumulates the digits of `s[from..to]` into a value, rejecting any
/// non-digit and any value beyond `i64::MAX`.  `Err(true)` reports a
/// non-digit at some index; `Err(false)` reports overflow.
fn scan_digits(s: &[u8], from: usize, to: usize) -> (r: Result<u64, bool>)
    requires
        from <= to <= s@.len(),
    ensures
        r is Ok ==> all_digits(s@.subrange(from as int, to as int))
            && digits_val(s@.subrange(from as int, to as int)) == r->Ok_0
            && r->Ok_0 <= i64::MAX,
        r == Err::<u64, bool>(true) ==> !all_digits(s@.subrange(from as int, to as int)),
        r == Err::<u64, bool>(false) ==> (all_digits(s@.subrange(from as int, to as int))
            ==> digits_val(s@.subrange(from as int, to as int)) > i64::MAX),
{
    let mut acc: u64 = 0;
    let mut j: usize = from;
    while j < to
        invariant
            from <= j <= to <= s@.len(),
            all_digits(s@.subrange(from as int, j as int)),
            acc == digits_val(s@.subrange(from as int, j as int)),
            acc <= i64::MAX,
        decreases to - j,
    {
        let b = s[j];
        proof {
            assert(s@.subrange(from as int, j + 1) =~= s@.subrange(
                from as int,
                j as int,
            ).push(s@[j as int]));
            lemma_digits_val_push(s@.subrange(from as int, j as int), s@[j as int]);
        }
        if b < 48 || b > 57 {
            return Err(true);
        }
        let d: u64 = (b - 48) as u64;
        if acc > ACC_CAP || (acc == ACC_CAP && d > 7) {
            proof {
                let full = s@.subrange(from as int, to as int);
                let part = s@.subrange(from as int, j + 1);
                assert(digits_val(part) > i64::MAX);
                if all_digits(full) {
                    assert(part =~= full.take(j + 1 - from));
                    lemma_digits_val_prefix_le(full, j + 1 - from);
                }
            }
            return Err(false);
        }
        acc = acc * 10 + d;
        j = j + 1;
    }
    proof {
        assert(s@.subrange(from as int, j as int) =~= s@.subrange(from as int, to as int));
    }
    Ok(acc)
}

/// If a scan found `b` first at index `k`, then `find_byte` returns `k`.
pub proof fn lemma_find_byte_from_scan(s: Seq<u8>, b: u8, k: int)
    requires
        0 <= k <= s.len(),
        forall|i: int| 0 <= i < k ==> s[i] != b,
        k < s.len() ==> s[k] == b,
    ensures
        find_byte(s, b) == k,
    decreases s.len(),
{
    if s.len() > 0 {
        if k == 0 {
        } else {
            assert(s[0] != b);
            assert(forall|i: int| 0 <= i < k - 1 ==> #[trigger] s.skip(1)[i] == s[i + 1]);
            if k - 1 < s.skip(1).len() {
                assert(s.skip(1)[k - 1] == s[k]);
            }
            lemma_find_byte_from_scan(s.skip(1), b, k - 1);
        }
    }
}

/// Parses one numeric token from a byte string.
#[verifier::loop_isolation(false)]
#[verifier::rlimit(80)]
pub(crate) fn parse_number_bytes(s: &[u8]) -> (r: Result<CSSNumeric, CSSParseError>)
    ensures
        r == spec_parse_number(s@),
{
    let n = s.len();
    let ghost gs = s@;
    // Character-class policing comes first: any byte outside the permitted
    // set rejects the token regardless of shape.
    let mut i: usize = 0;
    while i < n
        invariant
            0 <= i <= n == gs.len(),
            s@ == gs,
            forall|j: int| 0 <= j < i ==> is_permitted_byte(#[trigger] gs[j]),
        decreases n - i,
    {
        let b = s[i];
        if !(b == BYTE_PERCENT || b == BYTE_PLUS || b == BYTE_MINUS || b == BYTE_DOT || (48 <= b
            && b <= 57)) {
            return Err(CSSParseError::InvalidNumericCharacters);
        }
        i = i + 1;
    }
    assert(all_permitted(gs));
    let has_s = n > 0 && (s[0] == BYTE_PLUS || s[0] == BYTE_MINUS);
    let start: usize = if has_s {
        1
    } else {
        0
    };
    let neg = n > 0 && s[0] == BYTE_MINUS;
    let ghost gb = body(gs);
    proof {
        assert(has_s == has_sign(gs));
        assert(neg == is_neg(gs));
        assert(gb =~= gs.subrange(start as int, n as int));
    }
    if n == start {
        // An empty body (or the bare sign) fits no shape.
        assert(!percentage_shaped(gs));
        assert(!float_shaped(gs));
        return Err(CSSParseError::InvalidNumericSyntax);
    }
    if s[n - 1] == BYTE_PERCENT {
        // Only the percentage shape can end in `%`.
        proof {
            lemma_shapes_end_in_digit(gs);
        }
        if start == n - 1 {
            assert(!percentage_shaped(gs)) by {
                assert(body(gs.drop_last()).len() == 0);
            }
            return Err(CSSParseError::InvalidNumericSyntax);
        }
        proof {
            assert(body(gs.drop_last()) =~= gs.subrange(start as int, n - 1));
        }
        match scan_digits(s, start, n - 1) {
            Ok(v) => {
                proof {
                    assert(percentage_shaped(gs));
                    assert(digits_val(body(gs.drop_last())) == v as int);
                    if neg {
                        assert(spec_parse_number(gs) == Ok::<CSSNumeric, CSSParseError>(
                            CSSNumeric::Percentage((-(v as int)) as i64),
                        ));
                    } else {
                        assert(spec_parse_number(gs) == Ok::<CSSNumeric, CSSParseError>(
                            CSSNumeric::Percentage((v as int) as i64),
                        ));
                    }
                }
                if neg {
                    Ok(CSSNumeric::Percentage(-(v as i64)))
                } else {
                    Ok(CSSNumeric::Percentage(v as i64))
                }
            },
            Err(bad) => {
                proof {
                    assert(bad ==> !percentage_shaped(gs));
                    assert(spec_parse_number(gs) == Err::<CSSNumeric, CSSParseError>(
                        CSSParseError::InvalidNumericSyntax,
                    ));
                }
                Err(CSSParseError::InvalidNumericSyntax)
            },
        }
    } else {
        // Find the first dot in the body.
        let mut dp: usize = start;
        while dp < n && s[dp] != BYTE_DOT
            invariant
                start <= dp <= n == gs.len(),
                s@ == gs,
                forall|j: int| start <= j < dp ==> gs[j] != BYTE_DOT,
            decreases n - dp,
        {
            dp = dp + 1;
        }
        let ghost d = dp - start;
        proof {
            lemma_find_byte_from_scan(gb, BYTE_DOT, d);
        }
        if dp == n {
            // No dot: the integer shape is the only candidate.
            assert(!float_shaped(gs));
            assert(!percentage_shaped(gs));
            match scan_digits(s, start, n) {
                Ok(v) => {
                    proof {
                        assert(integer_shaped(gs));
                        assert(digits_val(body(gs)) == v as int);
                        if neg {
                            assert(spec_parse_number(gs) == Ok::<CSSNumeric, CSSParseError>(
                                CSSNumeric::Integer((-(v as int)) as i64),
                            ));
                        } else {
                            assert(spec_parse_number(gs) == Ok::<CSSNumeric, CSSParseError>(
                                CSSNumeric::Integer((v as int) as i64),
                            ));
                        }
                    }
                    if neg {
                        Ok(CSSNumeric::Integer(-(v as i64)))
                    } else {
                        Ok(CSSNumeric::Integer(v as i64))
                    }
                },
                Err(bad) => {
                    proof {
                        if bad {
                            assert(!all_digits(gs.subrange(start as int, n as int)));
                            assert(!integer_shaped(gs));
                        } else if all_digits(gb) {
                            assert(all_digits(gs.subrange(start as int, n as int)));
                            assert(digits_val(body(gs)) > i64::MAX);
                        } else {
                            assert(!integer_shaped(gs));
                        }
                        assert(spec_parse_number(gs) == Err::<CSSNumeric, CSSParseError>(
                            CSSParseError::InvalidNumericSyntax,
                        ));
                    }
                    Err(CSSParseError::InvalidNumericSyntax)
                },
            }
        } else {
            // A dot at `dp`: the float shape is the only candidate.
            assert(gs[dp as int] == BYTE_DOT);
            assert(!integer_shaped(gs)) by {
                assert(gb[d] == BYTE_DOT);
            }
            assert(!percentage_shaped(gs));
            if dp + 1 == n {
                // Nothing follows the dot.
                assert(!float_shaped(gs));
                return Err(CSSParseError::InvalidNumericSyntax);
            }
            proof {
                assert(gb.take(d) =~= gs.subrange(start as int, dp as int));
                assert(gb.skip(d + 1) =~= gs.subrange(dp + 1, n as int));
            }
            let w = match scan_digits(s, start, dp) {
                Ok(v) => v,
                Err(bad) => {
                    proof {
                        if bad {
                            assert(!all_digits(gb.take(d)));
                            assert(!float_shaped(gs));
                        } else if float_shaped(gs) {
                            assert(all_digits(gb.take(d)));
                            assert(digits_val(gb.take(d)) > i64::MAX);
                        }
                    }
                    return Err(CSSParseError::InvalidNumericSyntax);
                },
            };
            let ghost fseq = gs.subrange(dp + 1, n as int);
            // Accumulate the first twelve fractional digits while policing
            // that every remaining byte is a digit.
            let mut acc: u64 = 0;
            let mut cnt: usize = 0;
            let mut j: usize = dp + 1;
            while j < n
        invariant
                    dp + 1 <= j <= n == gs.len(),
                    s@ == gs,
                    fseq == gs.subrange(dp + 1, n as int),
                    cnt == if j - (dp + 1) <= 12 {
                        j - (dp + 1)
                    } else {
                        12
                    },
                    all_digits(gs.subrange(dp + 1, j as int)),
                    acc == digits_val(gs.subrange(dp + 1, dp + 1 + cnt)),
                    acc < 1_000_000_000_000,
                decreases n - j,
            {
                let b = s[j];
                if b < 48 || b > 57 {
                    assert(!float_shaped(gs)) by {
                        assert(fseq[j - (dp + 1)] == gs[j as int]);
                    }
                    return Err(CSSParseError::InvalidNumericSyntax);
                }
                proof {
                    assert(gs.subrange(dp + 1, j + 1) =~= gs.subrange(dp + 1, j as int).push(
                        gs[j as int],
                    ));
                    if cnt < 12 {
                        assert(gs.subrange(dp + 1, dp + 1 + (cnt + 1)) =~= gs.subrange(
                            dp + 1,
                            dp + 1 + cnt,
                        ).push(gs[dp + 1 + cnt]));
                        lemma_digits_val_push(gs.subrange(dp + 1, dp + 1 + cnt), gs[dp + 1 + cnt]);
                        lemma_digits_val_bounds(gs.subrange(dp + 1, dp + 1 + cnt));
                        lemma_pow10_12_value();
                        lemma_digits_val_bounds(gs.subrange(dp + 1, dp + 1 + (cnt + 1)));
                        lemma_pow10_mono((cnt + 1) as nat, 12);
                    }
                }
                if cnt < 12 {
                    acc = acc * 10 + ((b - 48) as u64);
                    cnt = cnt + 1;
                }
                j = j + 1;
            }
            assert(all_digits(fseq));
            assert(float_shaped(gs));
            // Shorter fractions are padded with trailing zeros up to twelve
            // digits.
            proof {
                if fseq.len() >= 12 {
                    assert(gs.subrange(dp + 1, dp + 1 + cnt) =~= fseq.take(12));
                } else {
                    assert(gs.subrange(dp + 1, dp + 1 + cnt) =~= fseq);
                }
            }
            if cnt < 12 {
                while cnt < 12
                    invariant
                        fseq.len() <= cnt <= 12,
                        fseq.len() < 12,
                        all_digits(fseq),
                        acc == digits_val(fseq) * pow10((cnt - fseq.len()) as nat),
                        acc < 1_000_000_000_000,
                    decreases 12 - cnt,
                {
                proof {
                    lemma_digits_val_bounds(fseq);
                    lemma_pow10_pos((cnt + 1 - fseq.len()) as nat);
                    lemma_pow10_add(fseq.len(), (cnt + 1 - fseq.len()) as nat);
                    lemma_pow10_12_value();
                    assert(digits_val(fseq) * pow10((cnt + 1 - fseq.len()) as nat) < pow10(
                        fseq.len(),
                    ) * pow10((cnt + 1 - fseq.len()) as nat)) by (nonlinear_arith)
                        requires
                            digits_val(fseq) < pow10(fseq.len()),
                            pow10((cnt + 1 - fseq.len()) as nat) >= 1,
                    ;
                    assert(pow10(fseq.len()) * pow10((cnt + 1 - fseq.len()) as nat) <= pow10(12))
                        by {
                        lemma_pow10_mono((fseq.len() + (cnt + 1 - fseq.len()) as nat) as nat, 12);
                    }
                    assert(digits_val(fseq) * pow10((cnt + 1 - fseq.len()) as nat) == digits_val(
                        fseq,
                    ) * pow10((cnt - fseq.len()) as nat) * 10) by (nonlinear_arith)
                        requires
                            pow10((cnt + 1 - fseq.len()) as nat) == 10 * pow10(
                                (cnt - fseq.len()) as nat,
                            ),
                    ;
                }
                    acc = acc * 10;
                    cnt = cnt + 1;
                }
            }
            proof {
                assert(acc == frac12_val(gb.skip(d + 1)));
                assert(float_shaped(gs));
                assert(digits_val(gb.take(d)) == w);
                assert(spec_parse_number(gs) == Ok::<CSSNumeric, CSSParseError>(
                    CSSNumeric::Float(
                        CSSFloat {
                            neg: is_neg(gs),
                            whole: digits_val(gb.take(d)) as u64,
                            frac: frac12_val(gb.skip(d + 1)) as u64,
                        },
                    ),
                ));
            }
            Ok(CSSNumeric::Float(CSSFloat { neg, whole: w, frac: acc }))
        }
    }
}

/// Parses a trimmed substring as exactly one CSS numeric token: a bare
/// integer, a bare decimal, or an integral percentage.
///
/// For every input the parse is total: the result is either a classified
/// token or one of the two numeric error kinds.  A character outside the
/// permitted set `0-9 + - . %` yields `InvalidNumericCharacters`, if and only
/// if one is present; a permitted character set in a malformed shape yields
/// `InvalidNumericSyntax`.
pub fn parse_css_number(num: &str) -> (r: Result<CSSNumeric, CSSParseError>)
    ensures
        r == spec_parse_number(num.spec_bytes()),
        r is Err ==> r->Err_0 == CSSParseError::InvalidNumericCharacters || r->Err_0
            == CSSParseError::InvalidNumericSyntax,
        (r is Err && r->Err_0 == CSSParseError::InvalidNumericCharacters) <==> !all_permitted(
            num.spec_bytes(),
        ),
{
    parse_number_bytes(num.as_bytes())
}

/// A float token produced by the parser stores less than 10^12 in `frac` and
/// at most `i64::MAX` in `whole`.
pub proof fn lemma_float_token_bounds(s: Seq<u8>)
    ensures
        spec_parse_number(s) matches Ok(CSSNumeric::Float(f)) ==> f.frac < FRAC_SCALE && f.whole
            <= i64::MAX,
{
    if spec_parse_number(s) matches Ok(CSSNumeric::Float(f)) {
        let b = body(s);
        let d = find_byte(b, BYTE_DOT);
        let fr = b.skip(d + 1);
        lemma_pow10_12_value();
        assert(float_shaped(s));
        lemma_digits_val_bounds(b.take(d));
        if fr.len() >= 12 {
            assert(all_digits(fr.take(12))) by {
                assert(forall|i: int| 0 <= i < 12 ==> #[trigger] fr.take(12)[i] == fr[i]);
            }
            lemma_digits_val_bounds(fr.take(12));
        } else {
            lemma_digits_val_bounds(fr);
            lemma_pow10_pos((12 - fr.len()) as nat);
            lemma_pow10_add(fr.len(), (12 - fr.len()) as nat);
            assert(digits_val(fr) * pow10((12 - fr.len()) as nat) < pow10(fr.len()) * pow10(
                (12 - fr.len()) as nat,
            )) by (nonlinear_arith)
                requires
                    digits_val(fr) < pow10(fr.len()),
                    pow10((12 - fr.len()) as nat) >= 1,
            ;
            assert(digits_val(fr) * pow10((12 - fr.len()) as nat) >= 0) by (nonlinear_arith)
                requires
                    digits_val(fr) >= 0,
                    pow10((12 - fr.len()) as nat) >= 1,
            ;
        }
    }
}

/// An integer or percentage token produced by the parser lies between
/// `-i64::MAX` and `i64::MAX`: the parser rejects any larger magnitude.
pub proof fn lemma_int_token_bounds(s: Seq<u8>)
    ensures
        spec_parse_number(s) matches Ok(CSSNumeric::Integer(v)) ==> -i64::MAX <= v <= i64::MAX,
        spec_parse_number(s) matches Ok(CSSNumeric::Percentage(v)) ==> -i64::MAX <= v
            <= i64::MAX,
{
    if integer_shaped(s) {
        lemma_digits_val_bounds(body(s));
    }
    if !integer_shaped(s) && percentage_shaped(s) {
        lemma_digits_val_bounds(body(s.drop_last()));
    }
}

/// Ten to the twelfth, spelled out for the accumulator bound.
proof fn lemma_pow10_12_value()
    ensures
        pow10(12) == 1_000_000_000_000,
{
    reveal_with_fuel(pow10, 13);
}

pub proof fn lemma_pow10_mono(a: nat, b: nat)
    requires
        a <= b,
    ensures
        pow10(a) <= pow10(b),
    decreases b,
{
    if a < b {
        lemma_pow10_mono(a, (b - 1) as nat);
        lemma_pow10_pos((b - 1) as nat);
    }
}

} // verus!
