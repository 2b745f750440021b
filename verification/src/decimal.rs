//! Decimal notation for register-sized integer values: specification-level
//! digit sequences, the [`DecimalValue`] trait tying a machine integer type to
//! the mathematical integer it stands for, and verified helpers shared by the
//! trait implementations.

use vstd::prelude::*;

verus! {

/// Whether `b` is an ASCII decimal digit (`'0'` through `'9'`).
pub open spec fn is_ascii_digit(b: u8) -> bool {
    48 <= b && b <= 57
}

/// The integer denoted by a sequence of ASCII digits, most significant first.
pub open spec fn dec_val(s: Seq<u8>) -> int
    decreases s.len(),
{
    if s.len() == 0 {
        0
    } else {
        10 * dec_val(s.drop_last()) + (s.last() - 48)
    }
}

/// The canonical digit sequence of a non-negative integer: no leading zeros,
/// except that zero itself is written `"0"`.
pub open spec fn dec_digits(m: int) -> Seq<u8>
    recommends
        m >= 0,
    decreases m,
{
    if m < 10 {
        seq![(48 + m) as u8]
    } else {
        dec_digits(m / 10).push((48 + m % 10) as u8)
    }
}

/// The canonical decimal rendering of an integer: a `'-'` sign for negative
/// values, then the canonical digits of its magnitude.
pub open spec fn spec_decimal(v: int) -> Seq<u8> {
    if v < 0 {
        seq![45u8] + dec_digits(-v)
    } else {
        dec_digits(v)
    }
}

/// A machine integer type that decimal literals can be read into and written
/// from. `val` maps each machine value to the mathematical integer it stands
/// for; `of_int` is its inverse on the representable range
/// `min_val() ..= max_val()`.
pub trait DecimalValue: Sized + Copy {
    /// The mathematical integer this value stands for.
    spec fn val(self) -> int;

    /// The value standing for the integer `i` (meaningful only for
    /// `min_val() <= i <= max_val()`).
    spec fn of_int(i: int) -> Self;

    /// The smallest representable integer.
    spec fn min_val() -> int;

    /// The largest representable integer.
    spec fn max_val() -> int;

    /// Every value stands for an integer in the representable range, and
    /// `of_int` undoes `val`.
    proof fn lemma_val_range(self)
        ensures
            Self::min_val() <= self.val() <= Self::max_val(),
            Self::of_int(self.val()) == self,
            Self::min_val() <= 0 < Self::max_val(),
    ;

    /// `val` undoes `of_int` on the representable range.
    proof fn lemma_of_int_val(i: int)
        requires
            Self::min_val() <= i <= Self::max_val(),
        ensures
            Self::of_int(i).val() == i,
    ;

    /// Reads the decimal literal whose digits stand in
    /// `digits[start..end]`, negated when `neg` holds, exactly as the type's
    /// usual string parse would: the representable values are accepted, all
    /// others (including any negative literal for an unsigned type, even
    /// `-0`) are rejected.
    fn from_decimal(digits: &[u8], neg: bool, start: usize, end: usize) -> (r: Option<Self>)
        requires
            start < end <= digits@.len(),
            forall|k: int| start <= k < end ==> is_ascii_digit(digits@[k]),
        ensures
            ({
                let m = dec_val(digits@.subrange(start as int, end as int));
                let d = if neg { -m } else { m };
                if dec_accepted(neg, m, Self::min_val(), Self::max_val()) {
                    r == Some(Self::of_int(d))
                } else {
                    r is None
                }
            }),
    ;

    /// Writes this value in canonical decimal notation.
    fn to_decimal(self) -> (r: Vec<u8>)
        ensures
            r@ == spec_decimal(self.val()),
    ;
}

/// Whether the decimal literal with magnitude `m`, negated when `neg` holds,
/// is accepted by the usual string parse of a type whose representable range
/// is `min ..= max`. A negative literal (even `-0`) is rejected by every
/// unsigned type.
pub open spec fn dec_accepted(neg: bool, m: int, min: int, max: int) -> bool {
    if neg {
        min < 0 && -m >= min
    } else {
        m <= max
    }
}

/// A sequence of ASCII digits denotes a non-negative integer.
pub proof fn lemma_dec_val_nonneg(s: Seq<u8>)
    requires
        forall|k: int| 0 <= k < s.len() ==> is_ascii_digit(s[k]),
    ensures
        dec_val(s) >= 0,
    decreases s.len(),
{
    if s.len() > 0 {
        lemma_dec_val_nonneg(s.drop_last());
    }
}

/// Appending one digit multiplies the value by ten and adds the digit.
pub proof fn lemma_dec_val_take_step(s: Seq<u8>, i: int)
    requires
        0 <= i < s.len(),
    ensures
        dec_val(s.take(i + 1)) == 10 * dec_val(s.take(i)) + (s[i] - 48),
{
    assert(s.take(i + 1).drop_last() =~= s.take(i));
    assert(s.take(i + 1).last() == s[i]);
}

/// The value of a digit sequence never drops as the prefix grows.
pub proof fn lemma_dec_val_take_le(s: Seq<u8>, j: int, k: int)
    requires
        forall|t: int| 0 <= t < s.len() ==> is_ascii_digit(s[t]),
        0 <= j <= k <= s.len(),
    ensures
        dec_val(s.take(j)) <= dec_val(s.take(k)),
    decreases k - j,
{
    if j < k {
        lemma_dec_val_take_le(s, j + 1, k);
        lemma_dec_val_take_step(s, j);
        assert(forall|t: int| 0 <= t < s.take(j).len() ==> is_ascii_digit(s.take(j)[t]));
        lemma_dec_val_nonneg(s.take(j));
    } else {
        assert(s.take(j) =~= s.take(k));
    }
}

/// The canonical digits of a non-negative integer are ASCII digits, at least
/// one of them, and they denote that integer.
pub proof fn lemma_dec_digits_props(m: int)
    requires
        m >= 0,
    ensures
        dec_digits(m).len() >= 1,
        forall|k: int| 0 <= k < dec_digits(m).len() ==> is_ascii_digit(dec_digits(m)[k]),
        dec_val(dec_digits(m)) == m,
    decreases m,
{
    if m < 10 {
        assert(dec_val(dec_digits(m)) == 10 * dec_val(dec_digits(m).drop_last()) + m);
        assert(dec_digits(m).drop_last() =~= Seq::<u8>::empty());
    } else {
        lemma_dec_digits_props(m / 10);
        vstd::arithmetic::div_mod::lemma_fundamental_div_mod(m, 10);
        assert(dec_digits(m).drop_last() =~= dec_digits(m / 10));
    }
}

/// Reads the magnitude of a decimal literal from `s[start..end]`: the denoted
/// integer when it fits in a `u64`, absence when it does not.
pub fn parse_mag(s: &[u8], start: usize, end: usize) -> (r: Option<u64>)
    requires
        start <= end <= s@.len(),
        forall|k: int| start <= k < end ==> is_ascii_digit(s@[k]),
    ensures
        ({
            let m = dec_val(s@.subrange(start as int, end as int));
            &&& 0 <= m
            &&& if m <= u64::MAX {
                r == Some(m as u64)
            } else {
                r is None
            }
        }),
{
    proof {
        lemma_dec_val_nonneg(s@.subrange(start as int, end as int));
    }
    let ghost t = s@.subrange(start as int, end as int);
    let mut acc: u64 = 0;
    let mut i: usize = start;
    proof {
        assert(t.take(0) =~= Seq::<u8>::empty());
    }
    while i < end
        invariant
            start <= i <= end <= s@.len(),
            t == s@.subrange(start as int, end as int),
            forall|k: int| start <= k < end ==> is_ascii_digit(s@[k]),
            acc == dec_val(t.take(i - start)),
        decreases end - i,
    {
        let d: u8 = s[i];
        proof {
            assert(t[i - start] == s@[i as int]);
            lemma_dec_val_take_step(t, i - start);
            assert(forall|k: int| 0 <= k < t.len() ==> is_ascii_digit(t[k]));
        }
        let step = match acc.checked_mul(10) {
            Some(x) => x.checked_add((d - 48) as u64),
            None => None,
        };
        match step {
            Some(x) => {
                acc = x;
            },
            None => {
                proof {
                    lemma_dec_val_take_le(t, i + 1 - start, t.len() as int);
                    assert(t.take(t.len() as int) =~= t);
                }
                return None;
            },
        }
        i = i + 1;
    }
    proof {
        assert(t.take(t.len() as int) =~= t);
    }
    Some(acc)
}

/// Writes a non-negative integer in canonical decimal notation.
pub fn mag_to_dec(m: u64) -> (r: Vec<u8>)
    ensures
        r@ == dec_digits(m as int),
    decreases m,
{
    if m < 10 {
        let mut r: Vec<u8> = Vec::new();
        r.push(48 + m as u8);
        proof {
            assert(r@ =~= dec_digits(m as int));
        }
        r
    } else {
        let mut r = mag_to_dec(m / 10);
        r.push(48 + (m % 10) as u8);
        r
    }
}

} // verus!
