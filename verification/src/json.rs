//! Streaming decode of one billing record from the bytes of one JSON
//! line. Arrays of rate observations are folded element by element into an
//! `Accumulator`: no decoded element outlives the step that absorbed it.
//!
//! Every executable parsing function mirrors a specification function over
//! the byte sequence exactly, errors included.
use crate::accum::lemma_mean_flattens_groups;
use crate::accum::spec_absorb_all;
use crate::accum::spec_absorb_group;
use crate::accum::spec_absorb_groups;
use crate::accum::spec_absorb_leaf;
use crate::accum::spec_finish;
use crate::accum::spec_zero;
use crate::accum::sum_of;
use crate::accum::Accumulator;
use crate::accum::Avg;
use crate::Error;
use vstd::prelude::*;

verus! {

/// Largest mantissa kept while scaling: rates are stored exactly in
/// `1e-9` units, and a literal whose scaled mantissa would pass this
/// limit is rejected as out of range.
pub const MANT_LIMIT: i128 = 100_000_000_000_000_000_000_000_000_000_000;

/// Clamp for scanned exponents; above any possible count of fraction
/// digits, so clamping never changes whether a literal is representable.
pub const EXP_CLAMP: i128 = 20_000_000_000_000_000_000;

pub open spec fn is_ws(b: u8) -> bool {
    b == 32 || b == 9 || b == 10 || b == 13
}

pub open spec fn is_digit(b: u8) -> bool {
    48 <= b <= 57
}

/// The first position at or after `i` holding no JSON whitespace.
pub open spec fn spec_skip_ws(s: Seq<u8>, i: int) -> int
    decreases s.len() - i,
{
    if i < 0 || i >= s.len() {
        i
    } else if is_ws(s[i]) {
        spec_skip_ws(s, i + 1)
    } else {
        i
    }
}

pub fn skip_ws(s: &Vec<u8>, i: usize) -> (j: usize)
    requires
        i <= s@.len(),
    ensures
        j == spec_skip_ws(s@, i as int),
        i <= j <= s@.len(),
{
    let mut j: usize = i;
    while j < s.len() && (s[j] == 32 || s[j] == 9 || s[j] == 10 || s[j] == 13)
        invariant
            i <= j <= s@.len(),
            spec_skip_ws(s@, i as int) == spec_skip_ws(s@, j as int),
        decreases s@.len() - j,
    {
        j = j + 1;
    }
    j
}

/// Scanning a run of digits into a mantissa, failing once it passes
/// `MANT_LIMIT`.
pub open spec fn spec_scan_mant(s: Seq<u8>, i: int, m: int) -> Result<(int, int), Error>
    decreases s.len() - i,
{
    if i < 0 || i >= s.len() || !is_digit(s[i]) {
        Ok((m, i))
    } else if m > MANT_LIMIT {
        Err(Error::RangeExceeded)
    } else {
        spec_scan_mant(s, i + 1, m * 10 + (s[i] - 48))
    }
}

pub fn scan_mant(s: &Vec<u8>, i: usize, m: i128) -> (res: Result<(i128, usize), Error>)
    requires
        i <= s@.len(),
        0 <= m <= MANT_LIMIT * 10 + 9,
    ensures
        match res {
            Ok((m2, j)) => spec_scan_mant(s@, i as int, m as int) == Ok::<(int, int), Error>(
                ((m2 as int, j as int)),
            ) && i <= j <= s@.len() && 0 <= m2 <= MANT_LIMIT * 10 + 9 && (i < s@.len()
                && is_digit(s@[i as int]) ==> i < j),
            Err(e) => spec_scan_mant(s@, i as int, m as int) == Err::<(int, int), Error>(e),
        },
{
    let mut j: usize = i;
    let mut acc: i128 = m;
    while j < s.len() && 48 <= s[j] && s[j] <= 57
        invariant
            i <= j <= s@.len(),
            0 <= acc <= MANT_LIMIT * 10 + 9,
            spec_scan_mant(s@, i as int, m as int) == spec_scan_mant(s@, j as int, acc as int),
        decreases s@.len() - j,
    {
        if acc > MANT_LIMIT {
            return Err(Error::RangeExceeded);
        }
        acc = acc * 10 + ((s[j] - 48) as i128);
        j = j + 1;
    }
    Ok((acc, j))
}

/// Scanning a run of digits into an exponent, clamped at `EXP_CLAMP`:
/// past the clamp the value only says "too far to ever matter".
pub open spec fn spec_scan_clamped(s: Seq<u8>, i: int, e: int) -> (int, int)
    decreases s.len() - i,
{
    if i < 0 || i >= s.len() || !is_digit(s[i]) {
        (e, i)
    } else if e >= EXP_CLAMP {
        spec_scan_clamped(s, i + 1, e)
    } else {
        spec_scan_clamped(s, i + 1, e * 10 + (s[i] - 48))
    }
}

pub fn scan_clamped(s: &Vec<u8>, i: usize, e: i128) -> (res: (i128, usize))
    requires
        i <= s@.len(),
        0 <= e < EXP_CLAMP * 10,
    ensures
        spec_scan_clamped(s@, i as int, e as int) == (res.0 as int, res.1 as int),
        i <= res.1 <= s@.len(),
        0 <= res.0 < EXP_CLAMP * 10,
{
    let mut j: usize = i;
    let mut acc: i128 = e;
    while j < s.len() && 48 <= s[j] && s[j] <= 57
        invariant
            i <= j <= s@.len(),
            0 <= acc < EXP_CLAMP * 10,
            spec_scan_clamped(s@, i as int, e as int) == spec_scan_clamped(s@, j as int, acc as int),
        decreases s@.len() - j,
    {
        if acc < EXP_CLAMP {
            acc = acc * 10 + ((s[j] - 48) as i128);
        }
        j = j + 1;
    }
    (acc, j)
}

/// Scaling a mantissa by a power of ten, exactly: multiplying fails past
/// `MANT_LIMIT`, dividing fails unless the digits shed are zeros.
pub open spec fn spec_apply_scale(m: int, p: int) -> Result<int, Error>
    decreases (if p >= 0 { p } else { -p }),
{
    if p == 0 {
        Ok(m)
    } else if p > 0 {
        if m > MANT_LIMIT {
            Err(Error::RangeExceeded)
        } else {
            spec_apply_scale(m * 10, p - 1)
        }
    } else {
        if m % 10 == 0 {
            spec_apply_scale(m / 10, p + 1)
        } else {
            Err(Error::RangeExceeded)
        }
    }
}

pub fn apply_scale(m: i128, p: i128) -> (res: Result<i128, Error>)
    requires
        0 <= m <= MANT_LIMIT * 10 + 9,
        -40 <= p <= 40,
    ensures
        match res {
            Ok(v) => spec_apply_scale(m as int, p as int) == Ok::<int, Error>(v as int) && 0 <= v
                <= MANT_LIMIT * 10 + 9,
            Err(e) => spec_apply_scale(m as int, p as int) == Err::<int, Error>(e),
        },
{
    let mut acc: i128 = m;
    let mut q: i128 = p;
    while q != 0
        invariant
            0 <= acc <= MANT_LIMIT * 10 + 9,
            -40 <= q <= 40,
            spec_apply_scale(m as int, p as int) == spec_apply_scale(acc as int, q as int),
        decreases (if q >= 0 { q as int } else { -(q as int) }),
    {
        if q > 0 {
            if acc > MANT_LIMIT {
                return Err(Error::RangeExceeded);
            }
            acc = acc * 10;
            q = q - 1;
        } else {
            if acc % 10 != 0 {
                return Err(Error::RangeExceeded);
            }
            acc = acc / 10;
            q = q + 1;
        }
    }
    Ok(acc)
}

/// The first position at or after `i` holding no digit.
pub open spec fn spec_skip_digits(s: Seq<u8>, i: int) -> int
    decreases s.len() - i,
{
    if i < 0 || i >= s.len() {
        i
    } else if is_digit(s[i]) {
        spec_skip_digits(s, i + 1)
    } else {
        i
    }
}

fn skip_digits(s: &Vec<u8>, i: usize) -> (j: usize)
    requires
        i <= s@.len(),
    ensures
        j == spec_skip_digits(s@, i as int),
        i <= j <= s@.len(),
        i < s@.len() && is_digit(s@[i as int]) ==> i < j,
{
    let mut j: usize = i;
    while j < s.len() && 48 <= s[j] && s[j] <= 57
        invariant
            i <= j <= s@.len(),
            spec_skip_digits(s@, i as int) == spec_skip_digits(s@, j as int),
        decreases s@.len() - j,
    {
        j = j + 1;
    }
    j
}

/// The position just past a well-formed number literal at `i`, with no
/// range restriction: skipped numbers are never decoded.
pub open spec fn spec_skip_number(s: Seq<u8>, i: int) -> Result<int, Error> {
    if i < 0 || i >= s.len() {
        Err(Error::Syntax)
    } else {
        let i1 = if s[i] == 45 {
            i + 1
        } else {
            i
        };
        if i1 >= s.len() || !is_digit(s[i1]) {
            Err(Error::Syntax)
        } else {
            let i2 = if s[i1] == 48 {
                i1 + 1
            } else {
                spec_skip_digits(s, i1)
            };
            if s[i1] == 48 && i2 < s.len() && is_digit(s[i2]) {
                Err(Error::Syntax)
            } else if i2 < s.len() && s[i2] == 46 {
                if i2 + 1 >= s.len() || !is_digit(s[i2 + 1]) {
                    Err(Error::Syntax)
                } else {
                    spec_skip_number_exp(s, spec_skip_digits(s, i2 + 1))
                }
            } else {
                spec_skip_number_exp(s, i2)
            }
        }
    }
}

/// The exponent tail of a skipped number literal.
pub open spec fn spec_skip_number_exp(s: Seq<u8>, i3: int) -> Result<int, Error> {
    if i3 < s.len() && (s[i3] == 101 || s[i3] == 69) {
        let i4 = if i3 + 1 < s.len() && (s[i3 + 1] == 43 || s[i3 + 1] == 45) {
            i3 + 2
        } else {
            i3 + 1
        };
        if i4 >= s.len() || !is_digit(s[i4]) {
            Err(Error::Syntax)
        } else {
            Ok(spec_skip_digits(s, i4))
        }
    } else {
        Ok(i3)
    }
}

fn skip_number(s: &Vec<u8>, i: usize) -> (res: Result<usize, Error>)
    requires
        i <= s@.len(),
    ensures
        match res {
            Ok(j) => spec_skip_number(s@, i as int) == Ok::<int, Error>(j as int) && i < j
                <= s@.len(),
            Err(e) => spec_skip_number(s@, i as int) == Err::<int, Error>(e),
        },
{
    if i >= s.len() {
        return Err(Error::Syntax);
    }
    let i1 = if s[i] == 45 {
        i + 1
    } else {
        i
    };
    if i1 >= s.len() || !(48 <= s[i1] && s[i1] <= 57) {
        return Err(Error::Syntax);
    }
    let i2 = if s[i1] == 48 {
        i1 + 1
    } else {
        skip_digits(s, i1)
    };
    if s[i1] == 48 && i2 < s.len() && 48 <= s[i2] && s[i2] <= 57 {
        return Err(Error::Syntax);
    }
    let i3: usize;
    if i2 < s.len() && s[i2] == 46 {
        if i2 + 1 >= s.len() || !(48 <= s[i2 + 1] && s[i2 + 1] <= 57) {
            return Err(Error::Syntax);
        }
        i3 = skip_digits(s, i2 + 1);
    } else {
        i3 = i2;
    }
    if i3 < s.len() && (s[i3] == 101 || s[i3] == 69) {
        let i4 = if i3 + 1 < s.len() && (s[i3 + 1] == 43 || s[i3 + 1] == 45) {
            i3 + 2
        } else {
            i3 + 1
        };
        if i4 >= s.len() || !(48 <= s[i4] && s[i4] <= 57) {
            return Err(Error::Syntax);
        }
        Ok(skip_digits(s, i4))
    } else {
        Ok(i3)
    }
}

/// Whatever whitespace skipping starts from, it stays inside the input.
pub proof fn lemma_skip_ws_bounds(s: Seq<u8>, i: int)
    requires
        0 <= i <= s.len(),
    ensures
        i <= spec_skip_ws(s, i) <= s.len(),
    decreases s.len() - i,
{
    if i < s.len() && is_ws(s[i]) {
        lemma_skip_ws_bounds(s, i + 1);
    }
}

/// The position just past the JSON value starting at `i`, of any type:
/// values of unrecognized fields are validated and passed over.
pub open spec fn spec_skip_value(s: Seq<u8>, i: int) -> Result<int, Error>
    decreases s.len() - i, 0int,
    via spec_skip_value_decreases
{
    if i < 0 || i >= s.len() {
        Err(Error::Syntax)
    } else if s[i] == 34 {
        match spec_scan_string(s, i + 1, Seq::empty()) {
            Ok((_, j)) => Ok(j),
            Err(e) => Err(e),
        }
    } else if s[i] == 116 {
        if i + 4 <= s.len() && s[i + 1] == 114 && s[i + 2] == 117 && s[i + 3] == 101 {
            Ok(i + 4)
        } else {
            Err(Error::Syntax)
        }
    } else if s[i] == 102 {
        if i + 5 <= s.len() && s[i + 1] == 97 && s[i + 2] == 108 && s[i + 3] == 115 && s[i + 4]
            == 101 {
            Ok(i + 5)
        } else {
            Err(Error::Syntax)
        }
    } else if s[i] == 110 {
        if i + 4 <= s.len() && s[i + 1] == 117 && s[i + 2] == 108 && s[i + 3] == 108 {
            Ok(i + 4)
        } else {
            Err(Error::Syntax)
        }
    } else if s[i] == 45 || is_digit(s[i]) {
        spec_skip_number(s, i)
    } else if s[i] == 91 {
        let j = spec_skip_ws(s, i + 1);
        if j < s.len() && s[j] == 93 {
            Ok(j + 1)
        } else {
            spec_skip_elems(s, j)
        }
    } else if s[i] == 123 {
        let j = spec_skip_ws(s, i + 1);
        if j < s.len() && s[j] == 125 {
            Ok(j + 1)
        } else {
            spec_skip_members(s, j)
        }
    } else {
        Err(Error::Syntax)
    }
}

proof fn lemma_skip_ws_bounds_all(s: Seq<u8>)
    ensures
        forall|k: int|
            0 <= k <= s.len() ==> k <= #[trigger] spec_skip_ws(s, k) <= s.len(),
{
    assert forall|k: int| 0 <= k <= s.len() implies k <= #[trigger] spec_skip_ws(s, k)
        <= s.len() by {
        lemma_skip_ws_bounds(s, k);
    }
}

#[via_fn]
proof fn spec_skip_value_decreases(s: Seq<u8>, i: int) {
    lemma_skip_ws_bounds_all(s);
}

/// Skipping the elements of an array from the start of one element.
pub open spec fn spec_skip_elems(s: Seq<u8>, i: int) -> Result<int, Error>
    decreases s.len() - i, 1int,
    via spec_skip_elems_decreases
{
    if i < 0 || i >= s.len() {
        Err(Error::Syntax)
    } else {
        match spec_skip_value(s, i) {
            Err(e) => Err(e),
            Ok(k) => if k <= i || k > s.len() {
                Err(Error::Syntax)
            } else {
                let k2 = spec_skip_ws(s, k);
                if k2 < s.len() && s[k2] == 44 {
                    spec_skip_elems(s, spec_skip_ws(s, k2 + 1))
                } else if k2 < s.len() && s[k2] == 93 {
                    Ok(k2 + 1)
                } else {
                    Err(Error::Syntax)
                }
            },
        }
    }
}

#[via_fn]
proof fn spec_skip_elems_decreases(s: Seq<u8>, i: int) {
    lemma_skip_ws_bounds_all(s);
}

/// Skipping the members of an object from the start of one key.
pub open spec fn spec_skip_members(s: Seq<u8>, i: int) -> Result<int, Error>
    decreases s.len() - i, 1int,
    via spec_skip_members_decreases
{
    if i < 0 || i >= s.len() || s[i] != 34 {
        Err(Error::Syntax)
    } else {
        match spec_scan_string(s, i + 1, Seq::empty()) {
            Err(e) => Err(e),
            Ok((_, k)) => if k <= i || k > s.len() {
                Err(Error::Syntax)
            } else {
                let c = spec_skip_ws(s, k);
                if c >= s.len() || s[c] != 58 {
                    Err(Error::Syntax)
                } else {
                    let v = spec_skip_ws(s, c + 1);
                    if v >= s.len() {
                        Err(Error::Syntax)
                    } else {
                        match spec_skip_value(s, v) {
                            Err(e) => Err(e),
                            Ok(k3) => if k3 <= v || k3 > s.len() {
                                Err(Error::Syntax)
                            } else {
                                let k4 = spec_skip_ws(s, k3);
                                if k4 < s.len() && s[k4] == 44 {
                                    spec_skip_members(s, spec_skip_ws(s, k4 + 1))
                                } else if k4 < s.len() && s[k4] == 125 {
                                    Ok(k4 + 1)
                                } else {
                                    Err(Error::Syntax)
                                }
                            },
                        }
                    }
                }
            },
        }
    }
}

#[via_fn]
proof fn spec_skip_members_decreases(s: Seq<u8>, i: int) {
    lemma_skip_ws_bounds_all(s);
}

/// Pass over the JSON value starting at `i`, checking only its shape.
pub fn skip_value(s: &Vec<u8>, i: usize) -> (res: Result<usize, Error>)
    requires
        i <= s@.len(),
    ensures
        match res {
            Ok(j) => spec_skip_value(s@, i as int) == Ok::<int, Error>(j as int) && i < j
                <= s@.len(),
            Err(e) => spec_skip_value(s@, i as int) == Err::<int, Error>(e),
        },
    decreases s@.len() - i,
{
    if i >= s.len() {
        return Err(Error::Syntax);
    }
    let b = s[i];
    if b == 34 {
        match scan_string(s, i + 1) {
            Ok((_, j)) => Ok(j),
            Err(e) => Err(e),
        }
    } else if b == 116 {
        if s.len() - i >= 4 && s[i + 1] == 114 && s[i + 2] == 117 && s[i + 3] == 101 {
            Ok(i + 4)
        } else {
            Err(Error::Syntax)
        }
    } else if b == 102 {
        if s.len() - i >= 5 && s[i + 1] == 97 && s[i + 2] == 108 && s[i + 3] == 115 && s[i + 4]
            == 101 {
            Ok(i + 5)
        } else {
            Err(Error::Syntax)
        }
    } else if b == 110 {
        if s.len() - i >= 4 && s[i + 1] == 117 && s[i + 2] == 108 && s[i + 3] == 108 {
            Ok(i + 4)
        } else {
            Err(Error::Syntax)
        }
    } else if b == 45 || (48 <= b && b <= 57) {
        skip_number(s, i)
    } else if b == 91 {
        let j0 = skip_ws(s, i + 1);
        if j0 < s.len() && s[j0] == 93 {
            return Ok(j0 + 1);
        }
        let mut e: usize = j0;
        loop
            invariant
                i < e <= s@.len(),
                i <= s@.len(),
                spec_skip_value(s@, i as int) == spec_skip_elems(s@, e as int),
            decreases s@.len() - e,
        {
            if e >= s.len() {
                return Err(Error::Syntax);
            }
            let k = match skip_value(s, e) {
                Ok(k) => k,
                Err(er) => {
                    return Err(er);
                },
            };
            let k2 = skip_ws(s, k);
            if k2 < s.len() && s[k2] == 44 {
                e = skip_ws(s, k2 + 1);
            } else if k2 < s.len() && s[k2] == 93 {
                return Ok(k2 + 1);
            } else {
                return Err(Error::Syntax);
            }
        }
    } else if b == 123 {
        let j0 = skip_ws(s, i + 1);
        if j0 < s.len() && s[j0] == 125 {
            return Ok(j0 + 1);
        }
        let mut m: usize = j0;
        loop
            invariant
                i < m <= s@.len(),
                i <= s@.len(),
                spec_skip_value(s@, i as int) == spec_skip_members(s@, m as int),
            decreases s@.len() - m,
        {
            if m >= s.len() || s[m] != 34 {
                return Err(Error::Syntax);
            }
            let k = match scan_string(s, m + 1) {
                Ok((_, k)) => k,
                Err(er) => {
                    return Err(er);
                },
            };
            let c = skip_ws(s, k);
            if c >= s.len() || s[c] != 58 {
                return Err(Error::Syntax);
            }
            let v = skip_ws(s, c + 1);
            if v >= s.len() {
                return Err(Error::Syntax);
            }
            let k3 = match skip_value(s, v) {
                Ok(k3) => k3,
                Err(er) => {
                    return Err(er);
                },
            };
            let k4 = skip_ws(s, k3);
            if k4 < s.len() && s[k4] == 44 {
                m = skip_ws(s, k4 + 1);
            } else if k4 < s.len() && s[k4] == 125 {
                return Ok(k4 + 1);
            } else {
                return Err(Error::Syntax);
            }
        }
    } else {
        Err(Error::Syntax)
    }
}

/// The value of one hexadecimal digit, or `-1`.
pub open spec fn hex_val(b: u8) -> int {
    if 48 <= b <= 57 {
        b - 48
    } else if 97 <= b <= 102 {
        b - 87
    } else if 65 <= b <= 70 {
        b - 55
    } else {
        -1
    }
}

/// The value of the four hexadecimal digits at `i`, or `-1`.
pub open spec fn spec_hex4(s: Seq<u8>, i: int) -> int {
    if i < 0 || i + 4 > s.len() {
        -1
    } else if hex_val(s[i]) < 0 || hex_val(s[i + 1]) < 0 || hex_val(s[i + 2]) < 0 || hex_val(
        s[i + 3],
    ) < 0 {
        -1
    } else {
        hex_val(s[i]) * 4096 + hex_val(s[i + 1]) * 256 + hex_val(s[i + 2]) * 16 + hex_val(s[i + 3])
    }
}

fn hexd(b: u8) -> (r: i16)
    ensures
        r as int == hex_val(b),
{
    if 48 <= b && b <= 57 {
        (b - 48) as i16
    } else if 97 <= b && b <= 102 {
        (b - 87) as i16
    } else if 65 <= b && b <= 70 {
        (b - 55) as i16
    } else {
        -1
    }
}

fn hex4(s: &Vec<u8>, i: usize) -> (res: Option<u32>)
    requires
        i <= s@.len(),
    ensures
        match res {
            Some(c) => spec_hex4(s@, i as int) == c as int && c < 0x10000,
            None => spec_hex4(s@, i as int) == -1,
        },
{
    if s.len() < 4 || i > s.len() - 4 {
        return None;
    }
    let d0 = hexd(s[i]);
    let d1 = hexd(s[i + 1]);
    let d2 = hexd(s[i + 2]);
    let d3 = hexd(s[i + 3]);
    if d0 < 0 || d1 < 0 || d2 < 0 || d3 < 0 {
        return None;
    }
    Some((d0 as u32) * 4096 + (d1 as u32) * 256 + (d2 as u32) * 16 + (d3 as u32))
}

/// The UTF-8 encoding of the scalar value `c`.
pub open spec fn utf8_enc(c: int) -> Seq<u8> {
    if c < 0x80 {
        seq![c as u8]
    } else if c < 0x800 {
        seq![(0xC0 + c / 64) as u8, (0x80 + c % 64) as u8]
    } else if c < 0x10000 {
        seq![(0xE0 + c / 4096) as u8, (0x80 + (c / 64) % 64) as u8, (0x80 + c % 64) as u8]
    } else {
        seq![
            (0xF0 + c / 262144) as u8,
            (0x80 + (c / 4096) % 64) as u8,
            (0x80 + (c / 64) % 64) as u8,
            (0x80 + c % 64) as u8,
        ]
    }
}

fn push_utf8(out: &mut Vec<u8>, c: u32)
    requires
        c <= 0x10FFFF,
    ensures
        final(out)@ == old(out)@ + utf8_enc(c as int),
{
    if c < 0x80 {
        out.push(c as u8);
        assert(final(out)@ =~= old(out)@ + utf8_enc(c as int));
    } else if c < 0x800 {
        out.push((0xC0 + c / 64) as u8);
        out.push((0x80 + c % 64) as u8);
        assert(final(out)@ =~= old(out)@ + utf8_enc(c as int));
    } else if c < 0x10000 {
        out.push((0xE0 + c / 4096) as u8);
        out.push((0x80 + (c / 64) % 64) as u8);
        out.push((0x80 + c % 64) as u8);
        assert(final(out)@ =~= old(out)@ + utf8_enc(c as int));
    } else {
        out.push((0xF0 + c / 262144) as u8);
        out.push((0x80 + (c / 4096) % 64) as u8);
        out.push((0x80 + (c / 64) % 64) as u8);
        out.push((0x80 + c % 64) as u8);
        assert(final(out)@ =~= old(out)@ + utf8_enc(c as int));
    }
}

/// The decoded contents of a string literal whose opening quote stands
/// just before `i`, appended to `acc`, and the position past the closing
/// quote. Escapes are decoded; control bytes and lone surrogates fail.
pub open spec fn spec_scan_string(s: Seq<u8>, i: int, acc: Seq<u8>) -> Result<
    (Seq<u8>, int),
    Error,
>
    decreases s.len() - i,
{
    if i < 0 || i >= s.len() {
        Err(Error::Syntax)
    } else if s[i] == 34 {
        Ok((acc, i + 1))
    } else if s[i] == 92 {
        if i + 1 >= s.len() {
            Err(Error::Syntax)
        } else if s[i + 1] == 34 || s[i + 1] == 92 || s[i + 1] == 47 {
            spec_scan_string(s, i + 2, acc.push(s[i + 1]))
        } else if s[i + 1] == 98 {
            spec_scan_string(s, i + 2, acc.push(8))
        } else if s[i + 1] == 102 {
            spec_scan_string(s, i + 2, acc.push(12))
        } else if s[i + 1] == 110 {
            spec_scan_string(s, i + 2, acc.push(10))
        } else if s[i + 1] == 114 {
            spec_scan_string(s, i + 2, acc.push(13))
        } else if s[i + 1] == 116 {
            spec_scan_string(s, i + 2, acc.push(9))
        } else if s[i + 1] == 117 {
            let c = spec_hex4(s, i + 2);
            if c < 0 {
                Err(Error::Syntax)
            } else if 0xD800 <= c < 0xDC00 {
                if i + 8 > s.len() || s[i + 6] != 92 || s[i + 7] != 117 {
                    Err(Error::Syntax)
                } else {
                    let lo = spec_hex4(s, i + 8);
                    if 0xDC00 <= lo < 0xE000 {
                        spec_scan_string(
                            s,
                            i + 12,
                            acc + utf8_enc(0x10000 + (c - 0xD800) * 0x400 + (lo - 0xDC00)),
                        )
                    } else {
                        Err(Error::Syntax)
                    }
                }
            } else if 0xDC00 <= c < 0xE000 {
                Err(Error::Syntax)
            } else {
                spec_scan_string(s, i + 6, acc + utf8_enc(c))
            }
        } else {
            Err(Error::Syntax)
        }
    } else if s[i] < 32 {
        Err(Error::Syntax)
    } else {
        spec_scan_string(s, i + 1, acc.push(s[i]))
    }
}

/// Decode the string literal whose opening quote stands just before `i`.
pub fn scan_string(s: &Vec<u8>, i: usize) -> (res: Result<(Vec<u8>, usize), Error>)
    requires
        i <= s@.len(),
    ensures
        match res {
            Ok((v, j)) => spec_scan_string(s@, i as int, Seq::empty()) == Ok::<
                (Seq<u8>, int),
                Error,
            >(((v@, j as int))) && i < j <= s@.len(),
            Err(e) => spec_scan_string(s@, i as int, Seq::empty()) == Err::<(Seq<u8>, int), Error>(
                e,
            ),
        },
{
    let mut out: Vec<u8> = Vec::new();
    let mut j: usize = i;
    loop
        invariant
            i <= j <= s@.len(),
            spec_scan_string(s@, i as int, Seq::empty()) == spec_scan_string(
                s@,
                j as int,
                out@,
            ),
        decreases s@.len() - j,
    {
        if j >= s.len() {
            return Err(Error::Syntax);
        }
        let b = s[j];
        if b == 34 {
            return Ok((out, j + 1));
        } else if b == 92 {
            if j + 1 >= s.len() {
                return Err(Error::Syntax);
            }
            let e = s[j + 1];
            if e == 34 || e == 92 || e == 47 {
                out.push(e);
                j = j + 2;
            } else if e == 98 {
                out.push(8);
                j = j + 2;
            } else if e == 102 {
                out.push(12);
                j = j + 2;
            } else if e == 110 {
                out.push(10);
                j = j + 2;
            } else if e == 114 {
                out.push(13);
                j = j + 2;
            } else if e == 116 {
                out.push(9);
                j = j + 2;
            } else if e == 117 {
                let c = match hex4(s, j + 2) {
                    Some(c) => c,
                    None => {
                        return Err(Error::Syntax);
                    },
                };
                if 0xD800 <= c && c < 0xDC00 {
                    if s.len() < 8 || j > s.len() - 8 || s[j + 6] != 92 || s[j + 7] != 117 {
                        return Err(Error::Syntax);
                    }
                    let lo = match hex4(s, j + 8) {
                        Some(lo) => lo,
                        None => {
                            return Err(Error::Syntax);
                        },
                    };
                    if 0xDC00 <= lo && lo < 0xE000 {
                        let cp = 0x10000 + (c - 0xD800) * 0x400 + (lo - 0xDC00);
                        push_utf8(&mut out, cp);
                        j = j + 12;
                    } else {
                        return Err(Error::Syntax);
                    }
                } else if 0xDC00 <= c && c < 0xE000 {
                    return Err(Error::Syntax);
                } else {
                    push_utf8(&mut out, c);
                    j = j + 6;
                }
            } else {
                return Err(Error::Syntax);
            }
        } else if b < 32 {
            return Err(Error::Syntax);
        } else {
            out.push(b);
            j = j + 1;
        }
    }
}

/// A JSON number literal starting at `i`, decoded to `1e-9` units: its
/// exact fixed-point value and the position just past it. Literals whose
/// exact value does not fit the fixed-point range fail with
/// `RangeExceeded`; malformed literals fail with `Syntax`.
pub open spec fn spec_parse_number(s: Seq<u8>, i: int) -> Result<(int, int), Error> {
    if i < 0 || i >= s.len() {
        Err(Error::Syntax)
    } else {
        let neg = s[i] == 45;
        let i1 = if neg {
            i + 1
        } else {
            i
        };
        if i1 >= s.len() || !is_digit(s[i1]) {
            Err(Error::Syntax)
        } else {
            let int_part = if s[i1] == 48 {
                Ok((0int, i1 + 1))
            } else {
                spec_scan_mant(s, i1, 0)
            };
            match int_part {
                Err(e) => Err(e),
                Ok((m0, i2)) => {
                    if s[i1] == 48 && i2 < s.len() && is_digit(s[i2]) {
                        Err(Error::Syntax)
                    } else {
                        spec_number_frac(s, i2, neg, m0)
                    }
                },
            }
        }
    }
}

/// The fraction part of a number literal, continuing at `i2`.
pub open spec fn spec_number_frac(s: Seq<u8>, i2: int, neg: bool, m0: int) -> Result<
    (int, int),
    Error,
> {
    if i2 < s.len() && s[i2] == 46 {
        if i2 + 1 >= s.len() || !is_digit(s[i2 + 1]) {
            Err(Error::Syntax)
        } else {
            match spec_scan_mant(s, i2 + 1, m0) {
                Err(e) => Err(e),
                Ok((m1, i3)) => spec_number_exp(s, i3, neg, m1, i3 - (i2 + 1)),
            }
        }
    } else {
        spec_number_exp(s, i2, neg, m0, 0)
    }
}

/// The exponent part of a number literal and the final scaling.
pub open spec fn spec_number_exp(s: Seq<u8>, i3: int, neg: bool, m1: int, f: int) -> Result<
    (int, int),
    Error,
> {
    if i3 < s.len() && (s[i3] == 101 || s[i3] == 69) {
        let eneg = i3 + 1 < s.len() && s[i3 + 1] == 45;
        let i4 = if i3 + 1 < s.len() && (s[i3 + 1] == 43 || s[i3 + 1] == 45) {
            i3 + 2
        } else {
            i3 + 1
        };
        if i4 >= s.len() || !is_digit(s[i4]) {
            Err(Error::Syntax)
        } else {
            let scan = spec_scan_clamped(s, i4, 0);
            spec_number_value(neg, m1, f, if eneg {
                -scan.0
            } else {
                scan.0
            }, scan.1)
        }
    } else {
        spec_number_value(neg, m1, f, 0, i3)
    }
}

/// The exact fixed-point value of a scanned literal: `m1` shifted by the
/// exponent less the fraction digits, in `1e-9` units, with `neg` applied.
pub open spec fn spec_number_value(neg: bool, m1: int, f: int, e: int, j: int) -> Result<
    (int, int),
    Error,
> {
    let p = e - f + 9;
    if m1 == 0 {
        Ok((0int, j))
    } else if p < -40 || p > 40 {
        Err(Error::RangeExceeded)
    } else {
        match spec_apply_scale(m1, p) {
            Err(e2) => Err(e2),
            Ok(v) => Ok(
                (
                    if neg {
                        -v
                    } else {
                        v
                    },
                    j,
                ),
            ),
        }
    }
}

/// Decode one JSON number literal at `i` into `1e-9` fixed-point units.
#[verifier::rlimit(60)]
pub fn parse_number(s: &Vec<u8>, i: usize) -> (res: Result<(i128, usize), Error>)
    requires
        i <= s@.len(),
    ensures
        match res {
            Ok((v, j)) => spec_parse_number(s@, i as int) == Ok::<(int, int), Error>(
                ((v as int, j as int)),
            ) && i < j <= s@.len(),
            Err(e) => spec_parse_number(s@, i as int) == Err::<(int, int), Error>(e),
        },
{
    if i >= s.len() {
        return Err(Error::Syntax);
    }
    let neg = s[i] == 45;
    let i1 = if neg {
        i + 1
    } else {
        i
    };
    if i1 >= s.len() || !(48 <= s[i1] && s[i1] <= 57) {
        return Err(Error::Syntax);
    }
    let m0: i128;
    let i2: usize;
    if s[i1] == 48 {
        m0 = 0;
        i2 = i1 + 1;
    } else {
        match scan_mant(s, i1, 0) {
            Ok((m, j)) => {
                m0 = m;
                i2 = j;
            },
            Err(e) => {
                return Err(e);
            },
        }
    }
    if s[i1] == 48 && i2 < s.len() && 48 <= s[i2] && s[i2] <= 57 {
        return Err(Error::Syntax);
    }
    assert(spec_parse_number(s@, i as int) == spec_number_frac(s@, i2 as int, neg, m0 as int));
    assert(i < i2);
    let m1: i128;
    let i3: usize;
    let f: usize;
    if i2 < s.len() && s[i2] == 46 {
        if i2 + 1 >= s.len() || !(48 <= s[i2 + 1] && s[i2 + 1] <= 57) {
            return Err(Error::Syntax);
        }
        match scan_mant(s, i2 + 1, m0) {
            Ok((m, j)) => {
                m1 = m;
                i3 = j;
                f = j - (i2 + 1);
            },
            Err(e) => {
                return Err(e);
            },
        }
    } else {
        m1 = m0;
        i3 = i2;
        f = 0;
    }
    assert(spec_parse_number(s@, i as int) == spec_number_exp(
        s@,
        i3 as int,
        neg,
        m1 as int,
        f as int,
    ));
    assert(i < i3 && i3 <= s@.len());
    let e_signed: i128;
    let j_end: usize;
    if i3 < s.len() && (s[i3] == 101 || s[i3] == 69) {
        let eneg = i3 + 1 < s.len() && s[i3 + 1] == 45;
        let i4 = if i3 + 1 < s.len() && (s[i3 + 1] == 43 || s[i3 + 1] == 45) {
            i3 + 2
        } else {
            i3 + 1
        };
        if i4 >= s.len() || !(48 <= s[i4] && s[i4] <= 57) {
            return Err(Error::Syntax);
        }
        let (e1, i5) = scan_clamped(s, i4, 0);
        e_signed = if eneg {
            -e1
        } else {
            e1
        };
        j_end = i5;
    } else {
        e_signed = 0;
        j_end = i3;
    }
    assert(spec_parse_number(s@, i as int) == spec_number_value(
        neg,
        m1 as int,
        f as int,
        e_signed as int,
        j_end as int,
    ));
    assert(i < j_end && j_end <= s@.len());
    assert(f <= s@.len());
    let p: i128 = e_signed - (f as i128) + 9;
    if m1 == 0 {
        return Ok((0, j_end));
    }
    if p < -40 || p > 40 {
        return Err(Error::RangeExceeded);
    }
    match apply_scale(m1, p) {
        Err(e2) => Err(e2),
        Ok(v) => Ok(
            (
                if neg {
                    -v
                } else {
                    v
                },
                j_end,
            ),
        ),
    }
}

/// The bytes of the key `name`.
pub open spec fn key_name() -> Seq<u8> {
    seq![110u8, 97, 109, 101]
}

/// The bytes of the key `billing_code`.
pub open spec fn key_billing_code() -> Seq<u8> {
    seq![98u8, 105, 108, 108, 105, 110, 103, 95, 99, 111, 100, 101]
}

/// The bytes of the key `negotiated_rates`.
pub open spec fn key_rates() -> Seq<u8> {
    seq![110u8, 101, 103, 111, 116, 105, 97, 116, 101, 100, 95, 114, 97, 116, 101, 115]
}

/// The bytes of the key `negotiated_prices`.
pub open spec fn key_prices() -> Seq<u8> {
    seq![110u8, 101, 103, 111, 116, 105, 97, 116, 101, 100, 95, 112, 114, 105, 99, 101, 115]
}

/// The bytes of the key `negotiated_rate`.
pub open spec fn key_rate() -> Seq<u8> {
    seq![110u8, 101, 103, 111, 116, 105, 97, 116, 101, 100, 95, 114, 97, 116, 101]
}

fn is_key_name(v: &Vec<u8>) -> (r: bool)
    ensures
        r <==> v@ == key_name(),
{
    if v.len() == 4 && v[0] == 110 && v[1] == 97 && v[2] == 109 && v[3] == 101 {
        proof {
            assert(v@ =~= key_name());
        }
        true
    } else {
        false
    }
}

fn is_key_billing_code(v: &Vec<u8>) -> (r: bool)
    ensures
        r <==> v@ == key_billing_code(),
{
    if v.len() == 12 && v[0] == 98 && v[1] == 105 && v[2] == 108 && v[3] == 108 && v[4] == 105
        && v[5] == 110 && v[6] == 103 && v[7] == 95 && v[8] == 99 && v[9] == 111 && v[10] == 100
        && v[11] == 101 {
        proof {
            assert(v@ =~= key_billing_code());
        }
        true
    } else {
        false
    }
}

fn is_key_rates(v: &Vec<u8>) -> (r: bool)
    ensures
        r <==> v@ == key_rates(),
{
    if v.len() == 16 && v[0] == 110 && v[1] == 101 && v[2] == 103 && v[3] == 111 && v[4] == 116
        && v[5] == 105 && v[6] == 97 && v[7] == 116 && v[8] == 101 && v[9] == 100 && v[10] == 95
        && v[11] == 114 && v[12] == 97 && v[13] == 116 && v[14] == 101 && v[15] == 115 {
        proof {
            assert(v@ =~= key_rates());
        }
        true
    } else {
        false
    }
}

fn is_key_prices(v: &Vec<u8>) -> (r: bool)
    ensures
        r <==> v@ == key_prices(),
{
    if v.len() == 17 && v[0] == 110 && v[1] == 101 && v[2] == 103 && v[3] == 111 && v[4] == 116
        && v[5] == 105 && v[6] == 97 && v[7] == 116 && v[8] == 101 && v[9] == 100 && v[10] == 95
        && v[11] == 112 && v[12] == 114 && v[13] == 105 && v[14] == 99 && v[15] == 101 && v[16]
        == 115 {
        proof {
            assert(v@ =~= key_prices());
        }
        true
    } else {
        false
    }
}

fn is_key_rate(v: &Vec<u8>) -> (r: bool)
    ensures
        r <==> v@ == key_rate(),
{
    if v.len() == 15 && v[0] == 110 && v[1] == 101 && v[2] == 103 && v[3] == 111 && v[4] == 116
        && v[5] == 105 && v[6] == 97 && v[7] == 116 && v[8] == 101 && v[9] == 100 && v[10] == 95
        && v[11] == 114 && v[12] == 97 && v[13] == 116 && v[14] == 101 {
        proof {
            assert(v@ =~= key_rate());
        }
        true
    } else {
        false
    }
}

/// What follows one member or element: a comma and the next position, or
/// the closing byte and the position past it.
pub open spec fn spec_after_item(s: Seq<u8>, k3: int, close: u8) -> Result<(bool, int), Error> {
    if k3 < 0 || k3 > s.len() {
        Err(Error::Syntax)
    } else {
        let k4 = spec_skip_ws(s, k3);
        if k4 < s.len() && s[k4] == 44 {
            Ok((true, spec_skip_ws(s, k4 + 1)))
        } else if k4 < s.len() && s[k4] == close {
            Ok((false, k4 + 1))
        } else {
            Err(Error::Syntax)
        }
    }
}

fn after_item(s: &Vec<u8>, k3: usize, close: u8) -> (res: Result<(bool, usize), Error>)
    requires
        k3 <= s@.len(),
    ensures
        match res {
            Ok((more, n)) => spec_after_item(s@, k3 as int, close) == Ok::<(bool, int), Error>(
                ((more, n as int)),
            ) && k3 <= n <= s@.len() && (!more ==> k3 < n),
            Err(e) => spec_after_item(s@, k3 as int, close) == Err::<(bool, int), Error>(e),
        },
{
    let k4 = skip_ws(s, k3);
    if k4 < s.len() && s[k4] == 44 {
        let n = skip_ws(s, k4 + 1);
        Ok((true, n))
    } else if k4 < s.len() && s[k4] == close {
        Ok((false, k4 + 1))
    } else {
        Err(Error::Syntax)
    }
}

/// The members of one rate-observation object from the start of a key:
/// its `negotiated_rate` number (required, at most once), other fields
/// passed over; yields the rate and the position past the object.
pub open spec fn spec_price_members(s: Seq<u8>, i: int, found: Option<int>) -> Result<
    (int, int),
    Error,
>
    decreases s.len() - i,
{
    if i < 0 || i >= s.len() || s[i] != 34 {
        Err(Error::Syntax)
    } else {
        match spec_scan_string(s, i + 1, Seq::empty()) {
            Err(e) => Err(e),
            Ok((key, k)) => if k <= i || k > s.len() {
                Err(Error::Syntax)
            } else {
                let c = spec_skip_ws(s, k);
                if c >= s.len() || s[c] != 58 {
                    Err(Error::Syntax)
                } else {
                    let v = spec_skip_ws(s, c + 1);
                    let stepped = if key == key_rate() {
                        if found is Some {
                            Err(Error::DuplicateField)
                        } else {
                            match spec_parse_number(s, v) {
                                Err(e) => Err(e),
                                Ok((val, k3)) => Ok((Some(val), k3)),
                            }
                        }
                    } else {
                        match spec_skip_value(s, v) {
                            Err(e) => Err(e),
                            Ok(k3) => Ok((found, k3)),
                        }
                    };
                    match stepped {
                        Err(e) => Err(e),
                        Ok((found2, k3)) => match spec_after_item(s, k3, 125) {
                            Err(e) => Err(e),
                            Ok((more, n)) => if more {
                                if n <= i || n > s.len() {
                                    Err(Error::Syntax)
                                } else {
                                    spec_price_members(s, n, found2)
                                }
                            } else {
                                match found2 {
                                    Some(val) => Ok((val, n)),
                                    None => Err(Error::MissingField),
                                }
                            },
                        },
                    }
                }
            },
        }
    }
}

/// One rate-observation object at `i`: `{ ... "negotiated_rate": r ... }`.
pub open spec fn spec_parse_price(s: Seq<u8>, i: int) -> Result<(int, int), Error> {
    if i < 0 || i >= s.len() || s[i] != 123 {
        Err(Error::Syntax)
    } else {
        let j = spec_skip_ws(s, i + 1);
        if j < s.len() && s[j] == 125 {
            Err(Error::MissingField)
        } else if j <= i || j > s.len() {
            Err(Error::Syntax)
        } else {
            spec_price_members(s, j, None)
        }
    }
}

/// Decode one rate-observation object, yielding its rate in `1e-9` units.
pub fn parse_price(s: &Vec<u8>, i: usize) -> (res: Result<(i128, usize), Error>)
    requires
        i <= s@.len(),
    ensures
        match res {
            Ok((val, j)) => spec_parse_price(s@, i as int) == Ok::<(int, int), Error>(
                ((val as int, j as int)),
            ) && i < j <= s@.len(),
            Err(e) => spec_parse_price(s@, i as int) == Err::<(int, int), Error>(e),
        },
{
    if i >= s.len() || s[i] != 123 {
        return Err(Error::Syntax);
    }
    let j0 = skip_ws(s, i + 1);
    if j0 < s.len() && s[j0] == 125 {
        return Err(Error::MissingField);
    }
    let mut m: usize = j0;
    let mut found: Option<i128> = None;
    loop
        invariant
            i < m <= s@.len(),
            i < s@.len(),
            spec_parse_price(s@, i as int) == spec_price_members(
                s@,
                m as int,
                match found {
                    Some(v) => Some(v as int),
                    None => None,
                },
            ),
        decreases s@.len() - m,
    {
        if m >= s.len() || s[m] != 34 {
            return Err(Error::Syntax);
        }
        let (key, k) = match scan_string(s, m + 1) {
            Ok(p) => p,
            Err(e) => {
                return Err(e);
            },
        };
        let c = skip_ws(s, k);
        if c >= s.len() || s[c] != 58 {
            return Err(Error::Syntax);
        }
        let v = skip_ws(s, c + 1);
        let k3: usize;
        if is_key_rate(&key) {
            if found.is_some() {
                return Err(Error::DuplicateField);
            }
            match parse_number(s, v) {
                Err(e) => {
                    return Err(e);
                },
                Ok((val, k3n)) => {
                    found = Some(val);
                    k3 = k3n;
                },
            }
        } else {
            match skip_value(s, v) {
                Err(e) => {
                    return Err(e);
                },
                Ok(k3n) => {
                    k3 = k3n;
                },
            }
        }
        match after_item(s, k3, 125) {
            Err(e) => {
                return Err(e);
            },
            Ok((more, n)) => {
                if more {
                    if n <= m {
                        return Err(Error::Syntax);
                    }
                    m = n;
                } else {
                    match found {
                        Some(val) => {
                            return Ok((val, n));
                        },
                        None => {
                            return Err(Error::MissingField);
                        },
                    }
                }
            },
        }
    }
}

/// Folding the elements of a `negotiated_prices` array, element by
/// element: each rate is absorbed into the accumulator and dropped.
pub open spec fn spec_fold_prices(s: Seq<u8>, i: int, acc: (int, int)) -> Result<
    ((int, int), int),
    Error,
>
    decreases s.len() - i,
{
    match spec_parse_price(s, i) {
        Err(e) => Err(e),
        Ok((val, k)) => match spec_absorb_leaf(acc, val) {
            Err(e) => Err(e),
            Ok(acc2) => match spec_after_item(s, k, 93) {
                Err(e) => Err(e),
                Ok((more, n)) => if more {
                    if n <= i || n > s.len() {
                        Err(Error::Syntax)
                    } else {
                        spec_fold_prices(s, n, acc2)
                    }
                } else {
                    Ok((acc2, n))
                },
            },
        },
    }
}

/// The value of a `negotiated_prices` field: `null` or an array of
/// rate-observation objects, folded into an accumulator.
pub open spec fn spec_prices_value(s: Seq<u8>, i: int) -> Result<((int, int), int), Error> {
    if i < 0 || i >= s.len() {
        Err(Error::Syntax)
    } else if s[i] == 110 {
        if i + 4 <= s.len() && s[i + 1] == 117 && s[i + 2] == 108 && s[i + 3] == 108 {
            Ok((spec_zero(), i + 4))
        } else {
            Err(Error::Syntax)
        }
    } else if s[i] == 91 {
        let j = spec_skip_ws(s, i + 1);
        if j < s.len() && s[j] == 93 {
            Ok((spec_zero(), j + 1))
        } else if j <= i || j > s.len() {
            Err(Error::Syntax)
        } else {
            spec_fold_prices(s, j, spec_zero())
        }
    } else {
        Err(Error::Syntax)
    }
}

/// Fold a `negotiated_prices` value into an accumulator, streaming.
pub fn parse_prices_value(s: &Vec<u8>, i: usize) -> (res: Result<(Accumulator, usize), Error>)
    requires
        i <= s@.len(),
    ensures
        match res {
            Ok((a, j)) => spec_prices_value(s@, i as int) == Ok::<((int, int), int), Error>(
                ((a@, j as int)),
            ) && i < j <= s@.len(),
            Err(e) => spec_prices_value(s@, i as int) == Err::<((int, int), int), Error>(e),
        },
{
    if i >= s.len() {
        return Err(Error::Syntax);
    }
    if s[i] == 110 {
        if s.len() - i >= 4 && s[i + 1] == 117 && s[i + 2] == 108 && s[i + 3] == 108 {
            return Ok((Accumulator::zero(), i + 4));
        } else {
            return Err(Error::Syntax);
        }
    }
    if s[i] != 91 {
        return Err(Error::Syntax);
    }
    let j0 = skip_ws(s, i + 1);
    if j0 < s.len() && s[j0] == 93 {
        return Ok((Accumulator::zero(), j0 + 1));
    }
    let mut e: usize = j0;
    let mut acc = Accumulator::zero();
    loop
        invariant
            i < e <= s@.len(),
            spec_prices_value(s@, i as int) == spec_fold_prices(s@, e as int, acc@),
        decreases s@.len() - e,
    {
        let (val, k) = match parse_price(s, e) {
            Ok(p) => p,
            Err(er) => {
                return Err(er);
            },
        };
        acc = match acc.absorb_leaf(val) {
            Ok(a) => a,
            Err(er) => {
                return Err(er);
            },
        };
        match after_item(s, k, 93) {
            Err(er) => {
                return Err(er);
            },
            Ok((more, n)) => {
                if more {
                    if n <= e {
                        return Err(Error::Syntax);
                    }
                    e = n;
                } else {
                    return Ok((acc, n));
                }
            },
        }
    }
}

/// The members of one rate-group object from the start of a key: its
/// `negotiated_prices` value folds into a sub-accumulator (absent means
/// no observations), other fields are passed over.
pub open spec fn spec_group_members(s: Seq<u8>, i: int, found: Option<(int, int)>) -> Result<
    ((int, int), int),
    Error,
>
    decreases s.len() - i,
{
    if i < 0 || i >= s.len() || s[i] != 34 {
        Err(Error::Syntax)
    } else {
        match spec_scan_string(s, i + 1, Seq::empty()) {
            Err(e) => Err(e),
            Ok((key, k)) => if k <= i || k > s.len() {
                Err(Error::Syntax)
            } else {
                let c = spec_skip_ws(s, k);
                if c >= s.len() || s[c] != 58 {
                    Err(Error::Syntax)
                } else {
                    let v = spec_skip_ws(s, c + 1);
                    let stepped = if key == key_prices() {
                        if found is Some {
                            Err(Error::DuplicateField)
                        } else {
                            match spec_prices_value(s, v) {
                                Err(e) => Err(e),
                                Ok((g, k3)) => Ok((Some(g), k3)),
                            }
                        }
                    } else {
                        match spec_skip_value(s, v) {
                            Err(e) => Err(e),
                            Ok(k3) => Ok((found, k3)),
                        }
                    };
                    match stepped {
                        Err(e) => Err(e),
                        Ok((found2, k3)) => match spec_after_item(s, k3, 125) {
                            Err(e) => Err(e),
                            Ok((more, n)) => if more {
                                if n <= i || n > s.len() {
                                    Err(Error::Syntax)
                                } else {
                                    spec_group_members(s, n, found2)
                                }
                            } else {
                                match found2 {
                                    Some(g) => Ok((g, n)),
                                    None => Ok((spec_zero(), n)),
                                }
                            },
                        },
                    }
                }
            },
        }
    }
}

/// One rate-group object at `i`: its observations, already folded.
pub open spec fn spec_parse_group(s: Seq<u8>, i: int) -> Result<((int, int), int), Error> {
    if i < 0 || i >= s.len() || s[i] != 123 {
        Err(Error::Syntax)
    } else {
        let j = spec_skip_ws(s, i + 1);
        if j < s.len() && s[j] == 125 {
            Ok((spec_zero(), j + 1))
        } else if j <= i || j > s.len() {
            Err(Error::Syntax)
        } else {
            spec_group_members(s, j, None)
        }
    }
}

/// Decode one rate-group object into its folded sub-accumulator.
pub fn parse_group(s: &Vec<u8>, i: usize) -> (res: Result<(Accumulator, usize), Error>)
    requires
        i <= s@.len(),
    ensures
        match res {
            Ok((a, j)) => spec_parse_group(s@, i as int) == Ok::<((int, int), int), Error>(
                ((a@, j as int)),
            ) && i < j <= s@.len(),
            Err(e) => spec_parse_group(s@, i as int) == Err::<((int, int), int), Error>(e),
        },
{
    if i >= s.len() || s[i] != 123 {
        return Err(Error::Syntax);
    }
    let j0 = skip_ws(s, i + 1);
    if j0 < s.len() && s[j0] == 125 {
        return Ok((Accumulator::zero(), j0 + 1));
    }
    let mut m: usize = j0;
    let mut found: Option<Accumulator> = None;
    loop
        invariant
            i < m <= s@.len(),
            i < s@.len(),
            spec_parse_group(s@, i as int) == spec_group_members(
                s@,
                m as int,
                match found {
                    Some(a) => Some(a@),
                    None => None,
                },
            ),
        decreases s@.len() - m,
    {
        if m >= s.len() || s[m] != 34 {
            return Err(Error::Syntax);
        }
        let (key, k) = match scan_string(s, m + 1) {
            Ok(p) => p,
            Err(e) => {
                return Err(e);
            },
        };
        let c = skip_ws(s, k);
        if c >= s.len() || s[c] != 58 {
            return Err(Error::Syntax);
        }
        let v = skip_ws(s, c + 1);
        let k3: usize;
        if is_key_prices(&key) {
            if found.is_some() {
                return Err(Error::DuplicateField);
            }
            match parse_prices_value(s, v) {
                Err(e) => {
                    return Err(e);
                },
                Ok((g, k3n)) => {
                    found = Some(g);
                    k3 = k3n;
                },
            }
        } else {
            match skip_value(s, v) {
                Err(e) => {
                    return Err(e);
                },
                Ok(k3n) => {
                    k3 = k3n;
                },
            }
        }
        match after_item(s, k3, 125) {
            Err(e) => {
                return Err(e);
            },
            Ok((more, n)) => {
                if more {
                    if n <= m {
                        return Err(Error::Syntax);
                    }
                    m = n;
                } else {
                    match found {
                        Some(g) => {
                            return Ok((g, n));
                        },
                        None => {
                            return Ok((Accumulator::zero(), n));
                        },
                    }
                }
            },
        }
    }
}

/// Folding the elements of a `negotiated_rates` array: each group's
/// sub-accumulator is combined into the running accumulator and dropped.
pub open spec fn spec_fold_groups(s: Seq<u8>, i: int, acc: (int, int)) -> Result<
    ((int, int), int),
    Error,
>
    decreases s.len() - i,
{
    match spec_parse_group(s, i) {
        Err(e) => Err(e),
        Ok((g, k)) => match spec_absorb_group(acc, g) {
            Err(e) => Err(e),
            Ok(acc2) => match spec_after_item(s, k, 93) {
                Err(e) => Err(e),
                Ok((more, n)) => if more {
                    if n <= i || n > s.len() {
                        Err(Error::Syntax)
                    } else {
                        spec_fold_groups(s, n, acc2)
                    }
                } else {
                    Ok((acc2, n))
                },
            },
        },
    }
}

/// The value of a `negotiated_rates` field: `null` or an array of
/// rate-group objects, folded into one top-level accumulator.
pub open spec fn spec_rates_value(s: Seq<u8>, i: int) -> Result<((int, int), int), Error> {
    if i < 0 || i >= s.len() {
        Err(Error::Syntax)
    } else if s[i] == 110 {
        if i + 4 <= s.len() && s[i + 1] == 117 && s[i + 2] == 108 && s[i + 3] == 108 {
            Ok((spec_zero(), i + 4))
        } else {
            Err(Error::Syntax)
        }
    } else if s[i] == 91 {
        let j = spec_skip_ws(s, i + 1);
        if j < s.len() && s[j] == 93 {
            Ok((spec_zero(), j + 1))
        } else if j <= i || j > s.len() {
            Err(Error::Syntax)
        } else {
            spec_fold_groups(s, j, spec_zero())
        }
    } else {
        Err(Error::Syntax)
    }
}

/// Fold a `negotiated_rates` value into one accumulator, streaming: at
/// no point is more than one group's sub-accumulator alive.
pub fn parse_rates_value(s: &Vec<u8>, i: usize) -> (res: Result<(Accumulator, usize), Error>)
    requires
        i <= s@.len(),
    ensures
        match res {
            Ok((a, j)) => spec_rates_value(s@, i as int) == Ok::<((int, int), int), Error>(
                ((a@, j as int)),
            ) && i < j <= s@.len(),
            Err(e) => spec_rates_value(s@, i as int) == Err::<((int, int), int), Error>(e),
        },
{
    if i >= s.len() {
        return Err(Error::Syntax);
    }
    if s[i] == 110 {
        if s.len() - i >= 4 && s[i + 1] == 117 && s[i + 2] == 108 && s[i + 3] == 108 {
            return Ok((Accumulator::zero(), i + 4));
        } else {
            return Err(Error::Syntax);
        }
    }
    if s[i] != 91 {
        return Err(Error::Syntax);
    }
    let j0 = skip_ws(s, i + 1);
    if j0 < s.len() && s[j0] == 93 {
        return Ok((Accumulator::zero(), j0 + 1));
    }
    let mut e: usize = j0;
    let mut acc = Accumulator::zero();
    loop
        invariant
            i < e <= s@.len(),
            spec_rates_value(s@, i as int) == spec_fold_groups(s@, e as int, acc@),
        decreases s@.len() - e,
    {
        let (g, k) = match parse_group(s, e) {
            Ok(p) => p,
            Err(er) => {
                return Err(er);
            },
        };
        acc = match acc.absorb_group(&g) {
            Ok(a) => a,
            Err(er) => {
                return Err(er);
            },
        };
        match after_item(s, k, 93) {
            Err(er) => {
                return Err(er);
            },
            Ok((more, n)) => {
                if more {
                    if n <= e {
                        return Err(Error::Syntax);
                    }
                    e = n;
                } else {
                    return Ok((acc, n));
                }
            },
        }
    }
}

/// One decoded billing record: the two plain fields and the optional
/// average, kept as the exact rational `sum / (count * RATE_UNIT)`.
#[derive(Debug)]
pub struct BillingRecord {
    pub name: Vec<u8>,
    pub billing_code: Vec<u8>,
    pub avg: Option<Avg>,
}

/// The model of an optional average.
pub open spec fn avg_view(a: Option<Avg>) -> Option<(int, int)> {
    match a {
        None => None,
        Some(x) => Some((x.sum as int, x.count as int)),
    }
}

impl View for BillingRecord {
    type V = (Seq<u8>, Seq<u8>, Option<(int, int)>);

    open spec fn view(&self) -> (Seq<u8>, Seq<u8>, Option<(int, int)>) {
        (self.name@, self.billing_code@, avg_view(self.avg))
    }
}

/// The members of the record object from the start of a key: `name` and
/// `billing_code` are required strings, `negotiated_rates` folds into
/// the optional average, anything else is passed over. A recognized key
/// seen twice fails; a missing required field fails.
pub open spec fn spec_record_members(
    s: Seq<u8>,
    i: int,
    name: Option<Seq<u8>>,
    code: Option<Seq<u8>>,
    rates: Option<(int, int)>,
) -> Result<((Seq<u8>, Seq<u8>, Option<(int, int)>), int), Error>
    decreases s.len() - i,
{
    if i < 0 || i >= s.len() || s[i] != 34 {
        Err(Error::Syntax)
    } else {
        match spec_scan_string(s, i + 1, Seq::empty()) {
            Err(e) => Err(e),
            Ok((key, k)) => if k <= i || k > s.len() {
                Err(Error::Syntax)
            } else {
                let c = spec_skip_ws(s, k);
                if c >= s.len() || s[c] != 58 {
                    Err(Error::Syntax)
                } else {
                    let v = spec_skip_ws(s, c + 1);
                    let stepped = if key == key_name() {
                        if name is Some {
                            Err(Error::DuplicateField)
                        } else if v >= s.len() || s[v] != 34 {
                            Err(Error::Syntax)
                        } else {
                            match spec_scan_string(s, v + 1, Seq::empty()) {
                                Err(e) => Err(e),
                                Ok((nm, k3)) => Ok((Some(nm), code, rates, k3)),
                            }
                        }
                    } else if key == key_billing_code() {
                        if code is Some {
                            Err(Error::DuplicateField)
                        } else if v >= s.len() || s[v] != 34 {
                            Err(Error::Syntax)
                        } else {
                            match spec_scan_string(s, v + 1, Seq::empty()) {
                                Err(e) => Err(e),
                                Ok((cd, k3)) => Ok((name, Some(cd), rates, k3)),
                            }
                        }
                    } else if key == key_rates() {
                        if rates is Some {
                            Err(Error::DuplicateField)
                        } else {
                            match spec_rates_value(s, v) {
                                Err(e) => Err(e),
                                Ok((acc, k3)) => Ok((name, code, Some(acc), k3)),
                            }
                        }
                    } else {
                        match spec_skip_value(s, v) {
                            Err(e) => Err(e),
                            Ok(k3) => Ok((name, code, rates, k3)),
                        }
                    };
                    match stepped {
                        Err(e) => Err(e),
                        Ok((name2, code2, rates2, k3)) => match spec_after_item(s, k3, 125) {
                            Err(e) => Err(e),
                            Ok((more, n)) => if more {
                                if n <= i || n > s.len() {
                                    Err(Error::Syntax)
                                } else {
                                    spec_record_members(s, n, name2, code2, rates2)
                                }
                            } else {
                                match (name2, code2) {
                                    (Some(nm), Some(cd)) => Ok(
                                        (
                                            (
                                                nm,
                                                cd,
                                                match rates2 {
                                                    None => None,
                                                    Some(acc) => spec_finish(acc),
                                                },
                                            ),
                                            n,
                                        ),
                                    ),
                                    _ => Err(Error::MissingField),
                                }
                            },
                        },
                    }
                }
            },
        }
    }
}

/// One whole input line decoded into a record model: the line is one
/// JSON object, surrounded only by whitespace. Kept opaque: callers of
/// the pipeline reason through it as a whole.
#[verifier::opaque]
pub open spec fn spec_parse_record(s: Seq<u8>) -> Result<
    (Seq<u8>, Seq<u8>, Option<(int, int)>),
    Error,
> {
    let i0 = spec_skip_ws(s, 0);
    if i0 >= s.len() || s[i0] != 123 {
        Err(Error::Syntax)
    } else {
        let j = spec_skip_ws(s, i0 + 1);
        let body = if j < s.len() && s[j] == 125 {
            Err(Error::MissingField)
        } else if j <= i0 || j > s.len() {
            Err(Error::Syntax)
        } else {
            spec_record_members(s, j, None, None, None)
        };
        match body {
            Err(e) => Err(e),
            Ok((m, end)) => if spec_skip_ws(s, end) == s.len() {
                Ok(m)
            } else {
                Err(Error::Syntax)
            },
        }
    }
}

fn record_members(s: &Vec<u8>, i: usize) -> (res: Result<
    ((Vec<u8>, Vec<u8>, Option<Avg>), usize),
    Error,
>)
    requires
        i <= s@.len(),
    ensures
        match res {
            Ok(((nm, cd, a), end)) => spec_record_members(s@, i as int, None, None, None) == Ok::<
                ((Seq<u8>, Seq<u8>, Option<(int, int)>), int),
                Error,
            >((((nm@, cd@, avg_view(a)), end as int))) && i < end <= s@.len(),
            Err(e) => spec_record_members(s@, i as int, None, None, None) == Err::<
                ((Seq<u8>, Seq<u8>, Option<(int, int)>), int),
                Error,
            >(e),
        },
{
    let mut m: usize = i;
    let mut name: Option<Vec<u8>> = None;
    let mut code: Option<Vec<u8>> = None;
    let mut rates: Option<Accumulator> = None;
    loop
        invariant
            i <= m <= s@.len(),
            spec_record_members(s@, i as int, None, None, None) == spec_record_members(
                s@,
                m as int,
                match name {
                    Some(ref v) => Some(v@),
                    None => None,
                },
                match code {
                    Some(ref v) => Some(v@),
                    None => None,
                },
                match rates {
                    Some(ref a) => Some(a@),
                    None => None,
                },
            ),
        decreases s@.len() - m,
    {
        if m >= s.len() || s[m] != 34 {
            return Err(Error::Syntax);
        }
        let (key, k) = match scan_string(s, m + 1) {
            Ok(p) => p,
            Err(e) => {
                return Err(e);
            },
        };
        let c = skip_ws(s, k);
        if c >= s.len() || s[c] != 58 {
            return Err(Error::Syntax);
        }
        let v = skip_ws(s, c + 1);
        let k3: usize;
        if is_key_name(&key) {
            if name.is_some() {
                return Err(Error::DuplicateField);
            }
            if v >= s.len() || s[v] != 34 {
                return Err(Error::Syntax);
            }
            match scan_string(s, v + 1) {
                Err(e) => {
                    return Err(e);
                },
                Ok((nm, k3n)) => {
                    name = Some(nm);
                    k3 = k3n;
                },
            }
        } else if is_key_billing_code(&key) {
            if code.is_some() {
                return Err(Error::DuplicateField);
            }
            if v >= s.len() || s[v] != 34 {
                return Err(Error::Syntax);
            }
            match scan_string(s, v + 1) {
                Err(e) => {
                    return Err(e);
                },
                Ok((cd, k3n)) => {
                    code = Some(cd);
                    k3 = k3n;
                },
            }
        } else if is_key_rates(&key) {
            if rates.is_some() {
                return Err(Error::DuplicateField);
            }
            match parse_rates_value(s, v) {
                Err(e) => {
                    return Err(e);
                },
                Ok((acc, k3n)) => {
                    rates = Some(acc);
                    k3 = k3n;
                },
            }
        } else {
            match skip_value(s, v) {
                Err(e) => {
                    return Err(e);
                },
                Ok(k3n) => {
                    k3 = k3n;
                },
            }
        }
        match after_item(s, k3, 125) {
            Err(e) => {
                return Err(e);
            },
            Ok((more, n)) => {
                if more {
                    if n <= m {
                        return Err(Error::Syntax);
                    }
                    m = n;
                } else {
                    match (name, code) {
                        (Some(nm), Some(cd)) => {
                            let avg = match rates {
                                None => None,
                                Some(acc) => acc.finish(),
                            };
                            return Ok(((nm, cd, avg), n));
                        },
                        _ => {
                            return Err(Error::MissingField);
                        },
                    }
                }
            },
        }
    }
}

/// Decode one input line into a `BillingRecord`, streaming the nested
/// rate arrays into the running accumulator. Returns exactly what the
/// record model gives: each error comes on exactly the lines the model
/// rejects for that reason.
pub fn parse_record(s: &Vec<u8>) -> (res: Result<BillingRecord, Error>)
    ensures
        match res {
            Ok(r) => spec_parse_record(s@) == Ok::<(Seq<u8>, Seq<u8>, Option<(int, int)>), Error>(
                r@,
            ),
            Err(e) => spec_parse_record(s@) == Err::<
                (Seq<u8>, Seq<u8>, Option<(int, int)>),
                Error,
            >(e),
        },
{
    proof {
        reveal(spec_parse_record);
    }
    let i0 = skip_ws(s, 0);
    if i0 >= s.len() || s[i0] != 123 {
        return Err(Error::Syntax);
    }
    let j = skip_ws(s, i0 + 1);
    if j < s.len() && s[j] == 125 {
        return Err(Error::MissingField);
    }
    match record_members(s, j) {
        Err(e) => Err(e),
        Ok(((nm, cd, avg), end)) => {
            let t = skip_ws(s, end);
            if t != s.len() {
                return Err(Error::Syntax);
            }
            Ok(BillingRecord { name: nm, billing_code: cd, avg })
        },
    }
}

/// Whatever a prices fold returns, it is the absorption of some sequence
/// of leaf rates, in input order, into the starting accumulator.
pub proof fn lemma_fold_prices_absorbs(s: Seq<u8>, i: int, acc: (int, int))
    ensures
        spec_fold_prices(s, i, acc) matches Ok(p) ==> exists|leaves: Seq<int>|
            spec_absorb_all(acc, leaves) == Ok::<(int, int), Error>(p.0),
    decreases s.len() - i,
{
    match spec_parse_price(s, i) {
        Err(_) => {
        },
        Ok((val, k)) => {
            match spec_absorb_leaf(acc, val) {
                Err(_) => {
                },
                Ok(acc2) => {
                    match spec_after_item(s, k, 93) {
                        Err(_) => {
                        },
                        Ok((more, n)) => {
                            if more {
                                if !(n <= i || n > s.len()) {
                                    lemma_fold_prices_absorbs(s, n, acc2);
                                    match spec_fold_prices(s, n, acc2) {
                                        Ok(p) => {
                                            let tail = choose|l: Seq<int>|
                                                spec_absorb_all(acc2, l) == Ok::<
                                                    (int, int),
                                                    Error,
                                                >(p.0);
                                            let w = seq![val] + tail;
                                            assert(w.first() == val);
                                            assert(w.drop_first() =~= tail);
                                            assert(spec_absorb_all(acc, w) == Ok::<
                                                (int, int),
                                                Error,
                                            >(p.0));
                                        },
                                        Err(_) => {
                                        },
                                    }
                                }
                            } else {
                                let w = seq![val];
                                assert(w.first() == val);
                                assert(w.drop_first() =~= Seq::<int>::empty());
                                assert(spec_absorb_all(acc2, Seq::<int>::empty()) == Ok::<
                                    (int, int),
                                    Error,
                                >(acc2));
                                assert(spec_absorb_all(acc, w) == Ok::<(int, int), Error>(acc2));
                            }
                        },
                    }
                },
            }
        },
    }
}

/// The value of a `negotiated_prices` field is the absorption of some
/// leaf sequence into a fresh accumulator.
pub proof fn lemma_prices_value_absorbs(s: Seq<u8>, i: int)
    ensures
        spec_prices_value(s, i) matches Ok(p) ==> exists|leaves: Seq<int>|
            spec_absorb_all(spec_zero(), leaves) == Ok::<(int, int), Error>(p.0),
{
    assert(spec_absorb_all(spec_zero(), Seq::<int>::empty()) == Ok::<(int, int), Error>(
        spec_zero(),
    ));
    if 0 <= i < s.len() && s[i] == 91 {
        let j = spec_skip_ws(s, i + 1);
        if !(j < s.len() && s[j] == 93) && !(j <= i || j > s.len()) {
            lemma_fold_prices_absorbs(s, j, spec_zero());
        }
    }
}

/// A rate-group object's sub-accumulator is the absorption of some leaf
/// sequence into a fresh accumulator, however its fields are laid out.
pub proof fn lemma_group_members_absorbs(s: Seq<u8>, i: int, found: Option<(int, int)>)
    ensures
        spec_group_members(s, i, found) matches Ok(p) ==> match found {
            Some(f) => p.0 == f,
            None => exists|leaves: Seq<int>|
                spec_absorb_all(spec_zero(), leaves) == Ok::<(int, int), Error>(p.0),
        },
    decreases s.len() - i,
{
    assert(spec_absorb_all(spec_zero(), Seq::<int>::empty()) == Ok::<(int, int), Error>(
        spec_zero(),
    ));
    if !(i < 0 || i >= s.len() || s[i] != 34) {
        match spec_scan_string(s, i + 1, Seq::empty()) {
            Err(_) => {
            },
            Ok((key, k)) => {
                if !(k <= i || k > s.len()) {
                    let c = spec_skip_ws(s, k);
                    if !(c >= s.len() || s[c] != 58) {
                        let v = spec_skip_ws(s, c + 1);
                        if key == key_prices() {
                            if found is None {
                                lemma_prices_value_absorbs(s, v);
                                match spec_prices_value(s, v) {
                                    Err(_) => {
                                    },
                                    Ok((g, k3)) => {
                                        match spec_after_item(s, k3, 125) {
                                            Ok((more, n)) => {
                                                if more && !(n <= i || n > s.len()) {
                                                    lemma_group_members_absorbs(s, n, Some(g));
                                                }
                                            },
                                            Err(_) => {
                                            },
                                        }
                                        match spec_group_members(s, i, found) {
                                            Ok(p) => {
                                                assert(p.0 == g);
                                                let w = choose|l: Seq<int>|
                                                    spec_absorb_all(spec_zero(), l) == Ok::<
                                                        (int, int),
                                                        Error,
                                                    >(g);
                                                assert(spec_absorb_all(spec_zero(), w) == Ok::<
                                                    (int, int),
                                                    Error,
                                                >(p.0));
                                            },
                                            Err(_) => {
                                            },
                                        }
                                    },
                                }
                            }
                        } else {
                            match spec_skip_value(s, v) {
                                Err(_) => {
                                },
                                Ok(k3) => {
                                    match spec_after_item(s, k3, 125) {
                                        Ok((more, n)) => {
                                            if more && !(n <= i || n > s.len()) {
                                                lemma_group_members_absorbs(s, n, found);
                                            }
                                        },
                                        Err(_) => {
                                        },
                                    }
                                },
                            }
                        }
                    }
                }
            },
        }
    }
}

/// One rate-group object's sub-accumulator is the absorption of some
/// leaf sequence into a fresh accumulator.
pub proof fn lemma_parse_group_absorbs(s: Seq<u8>, i: int)
    ensures
        spec_parse_group(s, i) matches Ok(p) ==> exists|leaves: Seq<int>|
            spec_absorb_all(spec_zero(), leaves) == Ok::<(int, int), Error>(p.0),
{
    assert(spec_absorb_all(spec_zero(), Seq::<int>::empty()) == Ok::<(int, int), Error>(
        spec_zero(),
    ));
    if !(i < 0 || i >= s.len() || s[i] != 123) {
        let j = spec_skip_ws(s, i + 1);
        if !(j < s.len() && s[j] == 125) && !(j <= i || j > s.len()) {
            lemma_group_members_absorbs(s, j, None);
        }
    }
}

/// Whatever a groups fold returns, it is the combination of some
/// sequence of groups of leaves, in input order, into the starting
/// accumulator.
pub proof fn lemma_fold_groups_absorbs(s: Seq<u8>, i: int, acc: (int, int))
    ensures
        spec_fold_groups(s, i, acc) matches Ok(p) ==> exists|gs: Seq<Seq<int>>|
            spec_absorb_groups(acc, gs) == Ok::<(int, int), Error>(p.0),
    decreases s.len() - i,
{
    match spec_parse_group(s, i) {
        Err(_) => {
        },
        Ok((g, k)) => {
            lemma_parse_group_absorbs(s, i);
            let lg = choose|l: Seq<int>|
                spec_absorb_all(spec_zero(), l) == Ok::<(int, int), Error>(g);
            match spec_absorb_group(acc, g) {
                Err(_) => {
                },
                Ok(acc2) => {
                    match spec_after_item(s, k, 93) {
                        Err(_) => {
                        },
                        Ok((more, n)) => {
                            if more {
                                if !(n <= i || n > s.len()) {
                                    lemma_fold_groups_absorbs(s, n, acc2);
                                    match spec_fold_groups(s, n, acc2) {
                                        Ok(p) => {
                                            let tail = choose|t: Seq<Seq<int>>|
                                                spec_absorb_groups(acc2, t) == Ok::<
                                                    (int, int),
                                                    Error,
                                                >(p.0);
                                            let w = seq![lg] + tail;
                                            assert(w.first() == lg);
                                            assert(w.drop_first() =~= tail);
                                            assert(spec_absorb_groups(acc, w) == Ok::<
                                                (int, int),
                                                Error,
                                            >(p.0));
                                        },
                                        Err(_) => {
                                        },
                                    }
                                }
                            } else {
                                let w = seq![lg];
                                assert(w.first() == lg);
                                assert(w.drop_first() =~= Seq::<Seq<int>>::empty());
                                assert(spec_absorb_groups(acc2, Seq::<Seq<int>>::empty()) == Ok::<
                                    (int, int),
                                    Error,
                                >(acc2));
                                assert(spec_absorb_groups(acc, w) == Ok::<(int, int), Error>(
                                    acc2,
                                ));
                            }
                        },
                    }
                },
            }
        },
    }
}

/// A decoded `negotiated_rates` value is the fold of some grouping of
/// leaves, and its accumulator carries exactly the sum and the count of
/// those leaves, flattened: the groups add no weight of their own.
pub proof fn lemma_rates_value_is_flat_mean(s: Seq<u8>, i: int)
    ensures
        spec_rates_value(s, i) matches Ok(p) ==> exists|gs: Seq<Seq<int>>|
            spec_absorb_groups(spec_zero(), gs) == Ok::<(int, int), Error>(p.0) && p.0.0 == sum_of(
                gs.flatten(),
            ) && p.0.1 == gs.flatten().len(),
{
    let none: Seq<Seq<int>> = Seq::empty();
    assert(spec_absorb_groups(spec_zero(), none) == Ok::<(int, int), Error>(spec_zero()));
    assert(none.flatten() =~= Seq::<int>::empty());
    assert(sum_of(Seq::<int>::empty()) == 0);
    if 0 <= i < s.len() && s[i] == 91 {
        let j = spec_skip_ws(s, i + 1);
        if !(j < s.len() && s[j] == 93) && !(j <= i || j > s.len()) {
            lemma_fold_groups_absorbs(s, j, spec_zero());
            match spec_fold_groups(s, j, spec_zero()) {
                Ok(p) => {
                    let gs = choose|t: Seq<Seq<int>>|
                        spec_absorb_groups(spec_zero(), t) == Ok::<(int, int), Error>(p.0);
                    lemma_mean_flattens_groups(spec_zero(), gs);
                    assert(spec_absorb_groups(spec_zero(), gs) == Ok::<(int, int), Error>(p.0)
                        && p.0.0 == sum_of(gs.flatten()) && p.0.1 == gs.flatten().len());
                },
                Err(_) => {
                },
            }
        }
    }
}

/// The optional average the record members yield: when `negotiated_rates`
/// was not yet seen, it is either absent or the finish of an accumulator
/// holding exactly the sum and the count of some flat leaf sequence.
pub proof fn lemma_record_members_average(
    s: Seq<u8>,
    i: int,
    name: Option<Seq<u8>>,
    code: Option<Seq<u8>>,
    rates: Option<(int, int)>,
)
    ensures
        spec_record_members(s, i, name, code, rates) matches Ok(r) ==> match rates {
            Some(f) => r.0.2 == spec_finish(f),
            None => r.0.2 is None || exists|gs: Seq<Seq<int>>|
                (#[trigger] spec_absorb_groups(spec_zero(), gs) matches Ok(acc) && r.0.2
                    == spec_finish(acc) && acc.0 == sum_of(gs.flatten()) && acc.1
                    == gs.flatten().len()),
        },
    decreases s.len() - i,
{
    if !(i < 0 || i >= s.len() || s[i] != 34) {
        match spec_scan_string(s, i + 1, Seq::empty()) {
            Err(_) => {
            },
            Ok((key, k)) => {
                if !(k <= i || k > s.len()) {
                    let c = spec_skip_ws(s, k);
                    if !(c >= s.len() || s[c] != 58) {
                        let v = spec_skip_ws(s, c + 1);
                        if key == key_name() && name is None && v < s.len() && s[v] == 34 {
                            match spec_scan_string(s, v + 1, Seq::empty()) {
                                Err(_) => {
                                },
                                Ok((nm, k3)) => {
                                    match spec_after_item(s, k3, 125) {
                                        Err(_) => {
                                        },
                                        Ok((more, n)) => {
                                            if more && !(n <= i || n > s.len()) {
                                                lemma_record_members_average(
                                                    s,
                                                    n,
                                                    Some(nm),
                                                    code,
                                                    rates,
                                                );
                                            }
                                        },
                                    }
                                },
                            }
                        } else if key == key_billing_code() && code is None && v < s.len() && s[v]
                            == 34 {
                            match spec_scan_string(s, v + 1, Seq::empty()) {
                                Err(_) => {
                                },
                                Ok((cd, k3)) => {
                                    match spec_after_item(s, k3, 125) {
                                        Err(_) => {
                                        },
                                        Ok((more, n)) => {
                                            if more && !(n <= i || n > s.len()) {
                                                lemma_record_members_average(
                                                    s,
                                                    n,
                                                    name,
                                                    Some(cd),
                                                    rates,
                                                );
                                            }
                                        },
                                    }
                                },
                            }
                        } else if key == key_rates() && rates is None {
                            lemma_rates_value_is_flat_mean(s, v);
                            match spec_rates_value(s, v) {
                                Err(_) => {
                                },
                                Ok((acc, k3)) => {
                                    match spec_after_item(s, k3, 125) {
                                        Err(_) => {
                                        },
                                        Ok((more, n)) => {
                                            if more && !(n <= i || n > s.len()) {
                                                lemma_record_members_average(
                                                    s,
                                                    n,
                                                    name,
                                                    code,
                                                    Some(acc),
                                                );
                                            }
                                        },
                                    }
                                    match spec_record_members(s, i, name, code, rates) {
                                        Err(_) => {
                                        },
                                        Ok(r) => {
                                            assert(r.0.2 == spec_finish(acc));
                                            let g0 = choose|t: Seq<Seq<int>>|
                                                spec_absorb_groups(spec_zero(), t) == Ok::<
                                                    (int, int),
                                                    Error,
                                                >(acc) && acc.0 == sum_of(t.flatten()) && acc.1
                                                == t.flatten().len();
                                            assert((spec_absorb_groups(spec_zero(), g0) matches
                                            Ok(a2) && r.0.2 == spec_finish(a2) && a2.0 == sum_of(
                                                g0.flatten(),
                                            ) && a2.1 == g0.flatten().len()));
                                        },
                                    }
                                },
                            }
                        } else if key != key_name() && key != key_billing_code() && key
                            != key_rates() {
                            match spec_skip_value(s, v) {
                                Err(_) => {
                                },
                                Ok(k3) => {
                                    match spec_after_item(s, k3, 125) {
                                        Err(_) => {
                                        },
                                        Ok((more, n)) => {
                                            if more && !(n <= i || n > s.len()) {
                                                lemma_record_members_average(
                                                    s,
                                                    n,
                                                    name,
                                                    code,
                                                    rates,
                                                );
                                            }
                                        },
                                    }
                                },
                            }
                        }
                    }
                }
            },
        }
    }
}

/// The average a decoded record carries is the arithmetic mean of the
/// leaf rates of its line: its sum and count are exactly those of one
/// flat sequence of leaves, however the line groups them — so the laws
/// of the flat mean (order invariance, empty groups adding nothing)
/// apply to every decoded average.
pub proof fn lemma_average_is_flat_mean(s: Seq<u8>)
    ensures
        match spec_parse_record(s) {
            Err(_) => true,
            Ok(r) => match r.2 {
                None => true,
                Some(avg) => exists|gs: Seq<Seq<int>>|
                    (#[trigger] spec_absorb_groups(spec_zero(), gs) matches Ok(a2) && a2 == avg
                        && avg.0 == sum_of(gs.flatten()) && avg.1 == gs.flatten().len() && avg.1
                        > 0),
            },
        },
{
    reveal(spec_parse_record);
    let i0 = spec_skip_ws(s, 0);
    if !(i0 >= s.len() || s[i0] != 123) {
        let j = spec_skip_ws(s, i0 + 1);
        if !(j < s.len() && s[j] == 125) && !(j <= i0 || j > s.len()) {
            lemma_record_members_average(s, j, None, None, None);
            match spec_record_members(s, j, None, None, None) {
                Err(_) => {
                },
                Ok(rr) => {
                    match rr.0.2 {
                        None => {
                        },
                        Some(avg) => {
                            let g0 = choose|t: Seq<Seq<int>>|
                                (#[trigger] spec_absorb_groups(spec_zero(), t) matches Ok(a2)
                                    && rr.0.2 == spec_finish(a2) && a2.0 == sum_of(t.flatten())
                                    && a2.1 == t.flatten().len());
                            assert((spec_absorb_groups(spec_zero(), g0) matches Ok(a2) && a2 == avg
                                && avg.0 == sum_of(g0.flatten()) && avg.1 == g0.flatten().len()
                                && avg.1 > 0));
                        },
                    }
                },
            }
        }
    }
}

} // verus!
