//! CSS functional color notation: `rgb(...)` strings and the parenthesized
//! tuples that follow `hsl`/`hsv`.  Both grammars split the parenthesized
//! body on commas, trim each field, hand it to the numeric token parser, and
//! then apply the clamping and rounding policy of the target color type.
//! Arithmetic is never part of the notation, and exactly three fields are
//! required.

use vstd::prelude::*;
use vstd::slice::slice_subrange;
use vstd::string::StringSliceAdditionalSpecFns;

use crate::cssnumeric::{
    find_byte, is_permitted_byte, lemma_find_byte_from_scan, lemma_float_token_bounds,
    lemma_int_token_bounds, parse_number_bytes, spec_parse_number, CSSFloat, CSSNumeric,
    CSSParseError, BYTE_DOT, BYTE_MINUS, BYTE_PERCENT, BYTE_PLUS, FRAC_SCALE,
};

verus! {

/// Byte value of `,`.
pub const BYTE_COMMA: u8 = 44;

/// Byte value of `(`.
pub const BYTE_LPAREN: u8 = 40;

/// Byte value of `)`.
pub const BYTE_RPAREN: u8 = 41;

/// Byte value of a space.
pub const BYTE_SPACE: u8 = 32;

/// One full turn of hue, in ten-thousandths of a degree.
pub const HUE_TURN_UNITS: u32 = 3_600_000;

/// The fixed-point unit of this crate's color components: 10^-4.
pub const UNIT_SCALE: u32 = 10_000;

/// ASCII whitespace, the characters trimmed around a comma-separated field.
pub open spec fn is_ws_byte(b: u8) -> bool {
    b == 32 || b == 9 || b == 10 || b == 11 || b == 12 || b == 13
}

pub open spec fn trim_left(s: Seq<u8>) -> Seq<u8>
    decreases s.len(),
{
    if s.len() > 0 && is_ws_byte(s[0]) {
        trim_left(s.skip(1))
    } else {
        s
    }
}

pub open spec fn trim_right(s: Seq<u8>) -> Seq<u8>
    decreases s.len(),
{
    if s.len() > 0 && is_ws_byte(s.last()) {
        trim_right(s.drop_last())
    } else {
        s
    }
}

/// A field with its surrounding whitespace removed.
pub open spec fn trim_ws(s: Seq<u8>) -> Seq<u8> {
    trim_right(trim_left(s))
}

/// The comma-separated fields of a function body; an empty body is one empty
/// field, exactly as the splitting of the source text produces it.
pub open spec fn split_commas(s: Seq<u8>) -> Seq<Seq<u8>>
    decreases s.len(),
{
    let c = find_byte(s, BYTE_COMMA);
    if 0 <= c < s.len() {
        seq![s.take(c)] + split_commas(s.skip(c + 1))
    } else {
        seq![s]
    }
}

/// The RGB numeric coercion rule, which turns one classified token into an
/// 8-bit channel.  An integer clamps to 0..=255 and is the channel directly.
/// A float is read as a fraction of full scale, clamped to 0..=1 and scaled
/// by 255; a percentage clamps to 0..=100 and scales by 255/100.  Both
/// scalings round to the nearest integer after subtracting a bias of 10^-6,
/// so that an exact half such as `0.5 * 255 = 127.5` lands on 127 and never
/// flips up to 128.
pub open spec fn spec_rgb_coerce(n: CSSNumeric) -> u8 {
    match n {
        CSSNumeric::Integer(v) => if v >= 255 {
            255u8
        } else if v <= 0 {
            0u8
        } else {
            v as u8
        },
        CSSNumeric::Float(f) => if f.neg {
            0u8
        } else if f.whole >= 1 {
            255u8
        } else {
            ((255 * f.frac + 499_999_000_000) / 1_000_000_000_000) as u8
        },
        CSSNumeric::Percentage(p) => if p >= 100 {
            255u8
        } else if p <= 0 {
            0u8
        } else {
            ((2_550_000 * p + 499_999) / 1_000_000) as u8
        },
    }
}

/// What parsing one RGB channel field returns: the numeric token parse,
/// followed by the RGB coercion rule.
pub open spec fn spec_parse_rgb_num(s: Seq<u8>) -> Result<u8, CSSParseError> {
    match spec_parse_number(s) {
        Ok(n) => Ok(spec_rgb_coerce(n)),
        Err(e) => Err(e),
    }
}

/// Parses one comma-separated field list under the RGB coercion rule, in
/// order, stopping at the first failing field.
pub open spec fn spec_parse_rgb_fields(fields: Seq<Seq<u8>>) -> Result<Seq<u8>, CSSParseError>
    decreases fields.len(),
{
    if fields.len() == 0 {
        Ok(seq![])
    } else {
        match spec_parse_rgb_num(trim_ws(fields[0])) {
            Ok(v) => match spec_parse_rgb_fields(fields.skip(1)) {
                Ok(vs) => Ok(seq![v] + vs),
                Err(e) => Err(e),
            },
            Err(e) => Err(e),
        }
    }
}

/// The characters an `rgb(...)` body may contain between its parentheses.
pub open spec fn is_rgb_body_byte(b: u8) -> bool {
    is_permitted_byte(b) || b == BYTE_COMMA || b == BYTE_SPACE
}

/// What `parse_rgb_str` returns, over the byte view of its input: the string
/// must carry the exact prefix `rgb(`, at least ten characters, a closing
/// parenthesis, only body characters between them, and exactly three fields
/// that each pass the RGB coercion rule.
pub open spec fn spec_parse_rgb_str(s: Seq<u8>) -> Result<(u8, u8, u8), CSSParseError> {
    if s.len() < 10 || s[0] != 114 || s[1] != 103 || s[2] != 98 || s[3] != BYTE_LPAREN {
        Err(CSSParseError::InvalidColorSyntax)
    } else if s.last() != BYTE_RPAREN {
        Err(CSSParseError::InvalidColorSyntax)
    } else if exists|i: int| 4 <= i < s.len() - 1 && !is_rgb_body_byte(#[trigger] s[i]) {
        Err(CSSParseError::InvalidColorSyntax)
    } else {
        match spec_parse_rgb_fields(split_commas(s.subrange(4, s.len() - 1))) {
            Ok(vs) => if vs.len() == 3 {
                Ok((vs[0], vs[1], vs[2]))
            } else {
                Err(CSSParseError::InvalidColorSyntax)
            },
            Err(e) => Err(e),
        }
    }
}

proof fn lemma_trim_left_range(s: Seq<u8>, k: int)
    requires
        0 <= k <= s.len(),
        forall|i: int| 0 <= i < k ==> is_ws_byte(#[trigger] s[i]),
        k < s.len() ==> !is_ws_byte(s[k]),
    ensures
        trim_left(s) == s.skip(k),
    decreases k,
{
    if k == 0 {
        assert(s.skip(0) =~= s);
    } else {
        assert(forall|i: int| 0 <= i < k - 1 ==> #[trigger] s.skip(1)[i] == s[i + 1]);
        if k - 1 < s.skip(1).len() {
            assert(s.skip(1)[k - 1] == s[k]);
        }
        lemma_trim_left_range(s.skip(1), k - 1);
        assert(s.skip(1).skip(k - 1) =~= s.skip(k));
    }
}

proof fn lemma_trim_right_range(s: Seq<u8>, k: int)
    requires
        0 <= k <= s.len(),
        forall|i: int| k <= i < s.len() ==> is_ws_byte(#[trigger] s[i]),
        k > 0 ==> !is_ws_byte(s[k - 1]),
    ensures
        trim_right(s) == s.take(k),
    decreases s.len() - k,
{
    if k == s.len() {
        assert(s.take(k) =~= s);
        if s.len() > 0 {
            assert(!is_ws_byte(s.last()));
        }
    } else {
        assert(forall|i: int|
            0 <= i < s.len() - 1 ==> #[trigger] s.drop_last()[i] == s[i]);
        lemma_trim_right_range(s.drop_last(), k);
        assert(s.drop_last().take(k) =~= s.take(k));
    }
}

/// Locates the trimmed extent of `s[from..to]`: everything outside
/// `[r.0, r.1)` is whitespace and the boundary characters are not.
#[verifier::loop_isolation(false)]
fn trim_range(s: &[u8], from: usize, to: usize) -> (r: (usize, usize))
    requires
        from <= to <= s@.len(),
    ensures
        from <= r.0 <= r.1 <= to,
        trim_ws(s@.subrange(from as int, to as int)) == s@.subrange(r.0 as int, r.1 as int),
{
    let ghost field = s@.subrange(from as int, to as int);
    let mut lo: usize = from;
    while lo < to && (s[lo] == 32 || s[lo] == 9 || s[lo] == 10 || s[lo] == 11 || s[lo] == 12
        || s[lo] == 13)
        invariant
            from <= lo <= to,
            forall|i: int| from <= i < lo ==> is_ws_byte(#[trigger] s@[i]),
        decreases to - lo,
    {
        lo = lo + 1;
    }
    let mut hi: usize = to;
    while hi > lo && (s[hi - 1] == 32 || s[hi - 1] == 9 || s[hi - 1] == 10 || s[hi - 1] == 11
        || s[hi - 1] == 12 || s[hi - 1] == 13)
        invariant
            lo <= hi <= to,
            forall|i: int| hi <= i < to ==> is_ws_byte(#[trigger] s@[i]),
        decreases hi,
    {
        hi = hi - 1;
    }
    proof {
        assert(forall|i: int| 0 <= i < lo - from ==> is_ws_byte(#[trigger] field[i]));
        if lo - from < field.len() {
            assert(field[lo - from] == s@[lo as int]);
        }
        lemma_trim_left_range(field, lo - from);
        let mid = field.skip(lo - from);
        assert(mid =~= s@.subrange(lo as int, to as int));
        assert(forall|i: int| hi - lo <= i < mid.len() ==> is_ws_byte(#[trigger] mid[i]));
        if hi > lo {
            assert(mid[hi - lo - 1] == s@[hi - 1]);
        }
        lemma_trim_right_range(mid, hi - lo);
        assert(mid.take(hi - lo) =~= s@.subrange(lo as int, hi as int));
    }
    (lo, hi)
}

/// Applies the RGB numeric coercion rule to one parsed token.
fn rgb_coerce(n: CSSNumeric) -> (r: u8)
    requires
        n matches CSSNumeric::Float(f) ==> f.frac < FRAC_SCALE,
    ensures
        r == spec_rgb_coerce(n),
{
    match n {
        CSSNumeric::Integer(v) => {
            if v >= 255 {
                255
            } else if v <= 0 {
                0
            } else {
                v as u8
            }
        },
        CSSNumeric::Float(f) => {
            if f.neg {
                0
            } else if f.whole >= 1 {
                255
            } else {
                let q: u64 = (255 * f.frac + 499_999_000_000) / 1_000_000_000_000;
                assert(q <= 255) by (nonlinear_arith)
                    requires
                        q == (255 * f.frac + 499_999_000_000) / 1_000_000_000_000,
                        f.frac < 1_000_000_000_000,
                ;
                q as u8
            }
        },
        CSSNumeric::Percentage(p) => {
            if p >= 100 {
                255
            } else if p <= 0 {
                0
            } else {
                let q: i64 = (2_550_000 * p + 499_999) / 1_000_000;
                assert(q <= 255) by (nonlinear_arith)
                    requires
                        q == (2_550_000 * p + 499_999) / 1_000_000,
                        0 < p < 100,
                ;
                assert(q >= 0);
                q as u8
            }
        },
    }
}

/// Parses one RGB channel field from bytes.
fn parse_rgb_num_bytes(s: &[u8]) -> (r: Result<u8, CSSParseError>)
    ensures
        r == spec_parse_rgb_num(s@),
{
    match parse_number_bytes(s) {
        Ok(n) => {
            proof {
                lemma_float_token_bounds(s@);
            }
            Ok(rgb_coerce(n))
        },
        Err(e) => Err(e),
    }
}

/// Given a string, attempts to parse it as a CSS numeric and interprets the
/// number as a component of an RGB color, clamping accordingly: `102%` maps
/// to 255 and `.48235` to 123.  Returns an error on invalid input.
pub fn parse_rgb_num(num: &str) -> (r: Result<u8, CSSParseError>)
    ensures
        r == spec_parse_rgb_num(num.spec_bytes()),
{
    parse_rgb_num_bytes(num.as_bytes())
}

/// Field parsing folded over an accumulator of already-parsed channels.
pub open spec fn rgb_glue(acc: Seq<u8>, fields: Seq<Seq<u8>>) -> Result<Seq<u8>, CSSParseError> {
    match spec_parse_rgb_fields(fields) {
        Ok(vs) => Ok(acc + vs),
        Err(e) => Err(e),
    }
}

/// Parses a string of the form `rgb(r, g, b)`, where `r`, `g` and `b` are
/// numbers, into the three 8-bit channel values, clamping each field by the
/// RGB coercion rule.  Returns an error on invalid input: a wrong or
/// differently-cased prefix, missing parentheses, a stray character, a
/// malformed number, or a field count other than three.
pub fn parse_rgb_str(num: &str) -> (r: Result<(u8, u8, u8), CSSParseError>)
    ensures
        r == spec_parse_rgb_str(num.spec_bytes()),
{
    parse_rgb_str_bytes(num.as_bytes())
}

#[verifier::loop_isolation(false)]
#[verifier::rlimit(60)]
fn parse_rgb_str_bytes(s: &[u8]) -> (r: Result<(u8, u8, u8), CSSParseError>)
    ensures
        r == spec_parse_rgb_str(s@),
{
    let n = s.len();
    if n < 10 || s[0] != 114 || s[1] != 103 || s[2] != 98 || s[3] != BYTE_LPAREN {
        return Err(CSSParseError::InvalidColorSyntax);
    }
    if s[n - 1] != BYTE_RPAREN {
        return Err(CSSParseError::InvalidColorSyntax);
    }
    let hi0 = n - 1;
    let mut i: usize = 4;
    while i < hi0
        invariant
            4 <= i <= hi0,
            forall|j: int| 4 <= j < i ==> is_rgb_body_byte(#[trigger] s@[j]),
        decreases hi0 - i,
    {
        let b = s[i];
        if !(b == BYTE_COMMA || b == BYTE_SPACE || b == BYTE_PERCENT || b == BYTE_PLUS || b
            == BYTE_MINUS || b == BYTE_DOT || (48 <= b && b <= 57)) {
            return Err(CSSParseError::InvalidColorSyntax);
        }
        i = i + 1;
    }
    let ghost interior = s@.subrange(4, hi0 as int);
    let mut nums: Vec<u8> = Vec::new();
    let mut pos: usize = 4;
    proof {
        if spec_parse_rgb_fields(split_commas(interior)) is Ok {
            let vs = spec_parse_rgb_fields(split_commas(interior))->Ok_0;
            assert(nums@ + vs =~= vs);
        }
    }
    while pos <= hi0
        invariant
            4 <= pos <= hi0 + 1,
            pos <= hi0 ==> spec_parse_rgb_fields(split_commas(interior)) == rgb_glue(
                nums@,
                split_commas(s@.subrange(pos as int, hi0 as int)),
            ),
            pos == hi0 + 1 ==> spec_parse_rgb_fields(split_commas(interior)) == Ok::<
                Seq<u8>,
                CSSParseError,
            >(nums@),
        decreases hi0 + 1 - pos,
    {
        let mut c: usize = pos;
        while c < hi0 && s[c] != BYTE_COMMA
            invariant
                pos <= c <= hi0,
                forall|j: int| pos <= j < c ==> s@[j] != BYTE_COMMA,
            decreases hi0 - c,
        {
            c = c + 1;
        }
        let ghost rem = s@.subrange(pos as int, hi0 as int);
        let ghost field = s@.subrange(pos as int, c as int);
        proof {
            assert forall|j: int| 0 <= j < c - pos implies rem[j] != BYTE_COMMA by {
                assert(rem[j] == s@[pos + j]);
            }
            if c < hi0 {
                assert(rem[c - pos] == s@[c as int]);
            }
            lemma_find_byte_from_scan(rem, BYTE_COMMA, c - pos);
            if c < hi0 {
                assert(rem.take(c - pos) =~= field);
                assert(rem.skip(c - pos + 1) =~= s@.subrange(c + 1, hi0 as int));
                assert(split_commas(rem) == seq![field] + split_commas(
                    s@.subrange(c + 1, hi0 as int),
                ));
            } else {
                assert(rem =~= field);
                assert(split_commas(rem) == seq![field]);
            }
        }
        let (lo, hi) = trim_range(s, pos, c);
        let piece = slice_subrange(s, lo, hi);
        let field_res = parse_rgb_num_bytes(piece);
        proof {
            assert(piece@ == trim_ws(field));
        }
        match field_res {
            Err(e) => {
                proof {
                    if c < hi0 {
                        let tail = split_commas(s@.subrange(c + 1, hi0 as int));
                        assert((seq![field] + tail)[0] == field);
                        assert((seq![field] + tail).skip(1) =~= tail);
                    } else {
                        assert(seq![field][0] == field);
                    }
                    assert(spec_parse_rgb_fields(split_commas(rem)) == Err::<
                        Seq<u8>,
                        CSSParseError,
                    >(e));
                }
                return Err(e);
            },
            Ok(v) => {
                let ghost prev = nums@;
                nums.push(v);
                proof {
                    if c < hi0 {
                        let tail = split_commas(s@.subrange(c + 1, hi0 as int));
                        assert((seq![field] + tail)[0] == field);
                        assert((seq![field] + tail).skip(1) =~= tail);
                        if spec_parse_rgb_fields(tail) is Ok {
                            let vs = spec_parse_rgb_fields(tail)->Ok_0;
                            assert(prev + (seq![v] + vs) =~= nums@ + vs);
                        }
                    } else {
                        assert(seq![field][0] == field);
                        assert(seq![field].skip(1) =~= Seq::<Seq<u8>>::empty());
                        assert(spec_parse_rgb_fields(Seq::<Seq<u8>>::empty()) == Ok::<
                            Seq<u8>,
                            CSSParseError,
                        >(seq![]));
                        assert(spec_parse_rgb_fields(seq![field]) == Ok::<
                            Seq<u8>,
                            CSSParseError,
                        >(seq![v] + seq![]));
                        assert(prev + (seq![v] + seq![]) =~= nums@);
                    }
                }
            },
        }
        if c == hi0 {
            pos = hi0 + 1;
        } else {
            pos = c + 1;
        }
    }
    if nums.len() != 3 {
        return Err(CSSParseError::InvalidColorSyntax);
    }
    let r0 = nums[0];
    let r1 = nums[1];
    let r2 = nums[2];
    Ok((r0, r1, r2))
}

/// Parses one comma-separated field list as bare numeric tokens, in order,
/// stopping at the first failing field.
pub open spec fn spec_parse_tuple_tokens(fields: Seq<Seq<u8>>) -> Result<
    Seq<CSSNumeric>,
    CSSParseError,
>
    decreases fields.len(),
{
    if fields.len() == 0 {
        Ok(seq![])
    } else {
        match spec_parse_number(trim_ws(fields[0])) {
            Ok(v) => match spec_parse_tuple_tokens(fields.skip(1)) {
                Ok(vs) => Ok(seq![v] + vs),
                Err(e) => Err(e),
            },
            Err(e) => Err(e),
        }
    }
}

/// Token parsing folded over an accumulator of already-parsed tokens.
pub open spec fn tuple_glue(acc: Seq<CSSNumeric>, fields: Seq<Seq<u8>>) -> Result<
    Seq<CSSNumeric>,
    CSSParseError,
> {
    match spec_parse_tuple_tokens(fields) {
        Ok(vs) => Ok(acc + vs),
        Err(e) => Err(e),
    }
}

/// An integer hue, wrapped into zero to one turn by whole turns — the floored
/// modulo — and scaled to ten-thousandths of a degree.
pub open spec fn spec_hue_units_from_int(v: i64) -> u32 {
    ((v % 360) * 10_000) as u32
}

/// A float hue, wrapped into zero to one turn by whole turns at the token's
/// full twelve-digit precision, then truncated to ten-thousandths of a
/// degree.
pub open spec fn spec_hue_units_from_float(f: CSSFloat) -> u32 {
    let v12 = f.whole * 1_000_000_000_000 + f.frac;
    let m = if f.neg {
        (-v12) % 360_000_000_000_000
    } else {
        v12 % 360_000_000_000_000
    };
    (m / 100_000_000) as u32
}

/// A percentage clamped to 0..=100 and scaled to ten-thousandths of full
/// scale.
pub open spec fn spec_pct_units(p: i64) -> u32 {
    if p < 0 {
        0u32
    } else if p > 100 {
        10_000u32
    } else {
        (p * 100) as u32
    }
}

/// What `parse_hsl_hsv_tuple` returns, over the byte view of its input: a
/// parenthesized body of exactly three fields; the hue field must be an
/// integer or a float and is wrapped into one turn, and the other two fields
/// must be percentages, which clamp to 0..=100 and scale to 0..=1.
pub open spec fn spec_parse_hsl_hsv_tuple(s: Seq<u8>) -> Result<(u32, u32, u32), CSSParseError> {
    if s.len() < 1 || s[0] != BYTE_LPAREN || s.last() != BYTE_RPAREN {
        Err(CSSParseError::InvalidColorSyntax)
    } else {
        match spec_parse_tuple_tokens(split_commas(s.subrange(1, s.len() - 1))) {
            Ok(toks) => if toks.len() != 3 {
                Err(CSSParseError::InvalidColorSyntax)
            } else if !(toks[0] is Integer || toks[0] is Float) || !(toks[1] is Percentage)
                || !(toks[2] is Percentage) {
                Err(CSSParseError::InvalidColorSyntax)
            } else {
                let h = if toks[0] is Integer {
                    spec_hue_units_from_int(toks[0]->Integer_0)
                } else {
                    spec_hue_units_from_float(toks[0]->Float_0)
                };
                Ok((h, spec_pct_units(toks[1]->Percentage_0), spec_pct_units(toks[2]->Percentage_0)))
            },
            Err(e) => Err(e),
        }
    }
}

/// A parsed cylindrical tuple lies within the component ranges: hue below
/// one turn, saturation and lightness at most full scale.
pub proof fn lemma_tuple_units_wf(s: Seq<u8>)
    ensures
        spec_parse_hsl_hsv_tuple(s) matches Ok((h, sat, l)) ==> h < HUE_TURN_UNITS && sat
            <= UNIT_SCALE && l <= UNIT_SCALE,
{
    if spec_parse_hsl_hsv_tuple(s) matches Ok((h, sat, l)) {
        let toks = spec_parse_tuple_tokens(split_commas(s.subrange(1, s.len() - 1)))->Ok_0;
        if toks[0] is Integer {
            let v = toks[0]->Integer_0;
            assert(0 <= v % 360 < 360);
        } else {
            let f = toks[0]->Float_0;
            let v12 = f.whole * 1_000_000_000_000 + f.frac;
            if f.neg {
                assert(0 <= (-v12) % 360_000_000_000_000 < 360_000_000_000_000);
            } else {
                assert(0 <= v12 % 360_000_000_000_000 < 360_000_000_000_000);
            }
        }
    }
}

/// The floored modulo of a negated non-negative value: the complement of the
/// value's own remainder.
proof fn lemma_euclid_neg_mod(a: int, m: int)
    requires
        a >= 0,
        m > 0,
    ensures
        (-a) % m == if a % m == 0 {
            0int
        } else {
            m - (a % m)
        },
{
    let q = a / m;
    let r = a % m;
    vstd::arithmetic::div_mod::lemma_fundamental_div_mod(a, m);
    if r == 0 {
        assert(-a == m * (-q) + 0) by (nonlinear_arith)
            requires
                a == m * q + r,
                r == 0,
        ;
        vstd::arithmetic::div_mod::lemma_mod_multiples_vanish(-q, 0, m);
    } else {
        assert(-a == m * (-q - 1) + (m - r)) by (nonlinear_arith)
            requires
                a == m * q + r,
        ;
        vstd::arithmetic::div_mod::lemma_mod_multiples_vanish(-q - 1, m - r, m);
        vstd::arithmetic::div_mod::lemma_small_mod((m - r) as nat, m as nat);
    }
}

/// Wraps an integer hue into `[0, 360)` degrees, in ten-thousandths.
fn hue_from_int(v: i64) -> (r: u32)
    requires
        -i64::MAX <= v,
    ensures
        r == spec_hue_units_from_int(v),
{
    let mag: u64 = if v < 0 {
        (-v) as u64
    } else {
        v as u64
    };
    let md: u64 = mag % 360;
    proof {
        if v < 0 {
            lemma_euclid_neg_mod(mag as int, 360);
        }
    }
    let w: u64 = if v < 0 && md != 0 {
        360 - md
    } else if v < 0 {
        0
    } else {
        md
    };
    (w * 10_000) as u32
}

/// Wraps a float hue into `[0, 360)` degrees at the token's full precision,
/// then truncates to ten-thousandths of a degree.
fn hue_from_float(f: CSSFloat) -> (r: u32)
    requires
        f.frac < FRAC_SCALE,
        f.whole <= i64::MAX,
    ensures
        r == spec_hue_units_from_float(f),
{
    let wm: u64 = f.whole % 360;
    let pos12: u64 = wm * 1_000_000_000_000 + f.frac;
    proof {
        let v12 = f.whole * 1_000_000_000_000 + f.frac;
        let q = f.whole as int / 360;
        vstd::arithmetic::div_mod::lemma_fundamental_div_mod(f.whole as int, 360);
        assert(v12 == 360_000_000_000_000 * q + pos12) by (nonlinear_arith)
            requires
                f.whole == 360 * q + wm,
                v12 == f.whole * 1_000_000_000_000 + f.frac,
                pos12 == wm * 1_000_000_000_000 + f.frac,
        ;
        vstd::arithmetic::div_mod::lemma_mod_multiples_vanish(q, pos12 as int, 360_000_000_000_000);
        vstd::arithmetic::div_mod::lemma_small_mod(pos12 as nat, 360_000_000_000_000);
        assert(v12 % 360_000_000_000_000 == pos12);
        if f.neg {
            lemma_euclid_neg_mod(v12, 360_000_000_000_000);
        }
    }
    let m12: u64 = if f.neg && pos12 != 0 {
        360_000_000_000_000 - pos12
    } else if f.neg {
        0
    } else {
        pos12
    };
    (m12 / 100_000_000) as u32
}

/// Clamps a percentage to 0..=100 and scales it to ten-thousandths.
fn pct_units(p: i64) -> (r: u32)
    ensures
        r == spec_pct_units(p),
{
    if p < 0 {
        0
    } else if p > 100 {
        10_000
    } else {
        (p * 100) as u32
    }
}

/// Parses an HSL or HSV tuple, given as the parenthesized remainder after
/// the function name, such as `(250, 50%, 50%)`: a triple whose hue lies in
/// `[0, 360)` degrees and whose other two components lie in `[0, 1]`, all in
/// ten-thousandths.  Out-of-range percentages clamp; a percentage in the hue
/// position is an error.
pub fn parse_hsl_hsv_tuple(tup: &str) -> (r: Result<(u32, u32, u32), CSSParseError>)
    ensures
        r == spec_parse_hsl_hsv_tuple(tup.spec_bytes()),
        r matches Ok((h, sat, l)) ==> h < HUE_TURN_UNITS && sat <= UNIT_SCALE && l <= UNIT_SCALE,
{
    proof {
        lemma_tuple_units_wf(tup.spec_bytes());
    }
    parse_hsl_hsv_tuple_bytes(tup.as_bytes())
}

#[verifier::loop_isolation(false)]
#[verifier::rlimit(60)]
pub(crate) fn parse_hsl_hsv_tuple_bytes(s: &[u8]) -> (r: Result<(u32, u32, u32), CSSParseError>)
    ensures
        r == spec_parse_hsl_hsv_tuple(s@),
{
    let n = s.len();
    if n < 1 || s[0] != BYTE_LPAREN {
        return Err(CSSParseError::InvalidColorSyntax);
    }
    if s[n - 1] != BYTE_RPAREN {
        return Err(CSSParseError::InvalidColorSyntax);
    }
    let hi0 = n - 1;
    let ghost interior = s@.subrange(1, hi0 as int);
    let mut toks: Vec<CSSNumeric> = Vec::new();
    let mut pos: usize = 1;
    proof {
        if spec_parse_tuple_tokens(split_commas(interior)) is Ok {
            let vs = spec_parse_tuple_tokens(split_commas(interior))->Ok_0;
            assert(toks@ + vs =~= vs);
        }
    }
    while pos <= hi0
        invariant
            1 <= pos <= hi0 + 1,
            pos <= hi0 ==> spec_parse_tuple_tokens(split_commas(interior)) == tuple_glue(
                toks@,
                split_commas(s@.subrange(pos as int, hi0 as int)),
            ),
            pos == hi0 + 1 ==> spec_parse_tuple_tokens(split_commas(interior)) == Ok::<
                Seq<CSSNumeric>,
                CSSParseError,
            >(toks@),
            forall|k: int|
                0 <= k < toks@.len() ==> (#[trigger] toks@[k] matches CSSNumeric::Integer(v)
                    ==> -i64::MAX <= v),
            forall|k: int|
                0 <= k < toks@.len() ==> (#[trigger] toks@[k] matches CSSNumeric::Float(f)
                    ==> f.frac < FRAC_SCALE && f.whole <= i64::MAX),
        decreases hi0 + 1 - pos,
    {
        let mut c: usize = pos;
        while c < hi0 && s[c] != BYTE_COMMA
            invariant
                pos <= c <= hi0,
                forall|j: int| pos <= j < c ==> s@[j] != BYTE_COMMA,
            decreases hi0 - c,
        {
            c = c + 1;
        }
        let ghost rem = s@.subrange(pos as int, hi0 as int);
        let ghost field = s@.subrange(pos as int, c as int);
        proof {
            assert forall|j: int| 0 <= j < c - pos implies rem[j] != BYTE_COMMA by {
                assert(rem[j] == s@[pos + j]);
            }
            if c < hi0 {
                assert(rem[c - pos] == s@[c as int]);
            }
            lemma_find_byte_from_scan(rem, BYTE_COMMA, c - pos);
            if c < hi0 {
                assert(rem.take(c - pos) =~= field);
                assert(rem.skip(c - pos + 1) =~= s@.subrange(c + 1, hi0 as int));
                assert(split_commas(rem) == seq![field] + split_commas(
                    s@.subrange(c + 1, hi0 as int),
                ));
            } else {
                assert(rem =~= field);
                assert(split_commas(rem) == seq![field]);
            }
        }
        let (lo, hi) = trim_range(s, pos, c);
        let piece = slice_subrange(s, lo, hi);
        let field_res = parse_number_bytes(piece);
        proof {
            assert(piece@ == trim_ws(field));
            lemma_float_token_bounds(piece@);
            lemma_int_token_bounds(piece@);
        }
        match field_res {
            Err(e) => {
                proof {
                    if c < hi0 {
                        let tail = split_commas(s@.subrange(c + 1, hi0 as int));
                        assert((seq![field] + tail)[0] == field);
                        assert((seq![field] + tail).skip(1) =~= tail);
                    } else {
                        assert(seq![field][0] == field);
                    }
                    assert(spec_parse_tuple_tokens(split_commas(rem)) == Err::<
                        Seq<CSSNumeric>,
                        CSSParseError,
                    >(e));
                }
                return Err(e);
            },
            Ok(v) => {
                let ghost prev = toks@;
                toks.push(v);
                proof {
                    if c < hi0 {
                        let tail = split_commas(s@.subrange(c + 1, hi0 as int));
                        assert((seq![field] + tail)[0] == field);
                        assert((seq![field] + tail).skip(1) =~= tail);
                        if spec_parse_tuple_tokens(tail) is Ok {
                            let vs = spec_parse_tuple_tokens(tail)->Ok_0;
                            assert(prev + (seq![v] + vs) =~= toks@ + vs);
                        }
                    } else {
                        assert(seq![field][0] == field);
                        assert(seq![field].skip(1) =~= Seq::<Seq<u8>>::empty());
                        assert(spec_parse_tuple_tokens(Seq::<Seq<u8>>::empty()) == Ok::<
                            Seq<CSSNumeric>,
                            CSSParseError,
                        >(seq![]));
                        assert(spec_parse_tuple_tokens(seq![field]) == Ok::<
                            Seq<CSSNumeric>,
                            CSSParseError,
                        >(seq![v] + seq![]));
                        assert(prev + (seq![v] + seq![]) =~= toks@);
                    }
                }
            },
        }
        if c == hi0 {
            pos = hi0 + 1;
        } else {
            pos = c + 1;
        }
    }
    if toks.len() != 3 {
        return Err(CSSParseError::InvalidColorSyntax);
    }
    let h: u32 = match toks[0] {
        CSSNumeric::Integer(v) => hue_from_int(v),
        CSSNumeric::Float(f) => hue_from_float(f),
        _ => {
            return Err(CSSParseError::InvalidColorSyntax);
        },
    };
    let sat: u32 = match toks[1] {
        CSSNumeric::Percentage(p) => pct_units(p),
        _ => {
            return Err(CSSParseError::InvalidColorSyntax);
        },
    };
    let l_or_v: u32 = match toks[2] {
        CSSNumeric::Percentage(p) => pct_units(p),
        _ => {
            return Err(CSSParseError::InvalidColorSyntax);
        },
    };
    Ok((h, sat, l_or_v))
}

} // verus!
