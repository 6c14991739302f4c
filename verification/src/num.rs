//! Parsing of ASCII-decimal byte slices into fixed-width integers, with
//! exact overflow and format detection, and formatting of unsigned
//! integers back into ASCII-decimal bytes.

use vstd::prelude::*;

verus! {

/// Errors of the ASCII-decimal integer parser.
#[derive(Debug, Clone, PartialEq, Eq)]
pub enum ParseIntError {
    /// A byte other than an ASCII decimal digit was found.
    InvalidDigit,
    /// The represented number does not fit into the target type.
    Overflow,
    /// The input, after an optional sign, is empty.
    Empty,
}

/// The byte is an ASCII decimal digit (`'0'..='9'`).
pub open spec fn is_digit(b: u8) -> bool {
    48 <= b <= 57
}

pub open spec fn all_digits(s: Seq<u8>) -> bool {
    forall|i: int| 0 <= i < s.len() ==> is_digit(#[trigger] s[i])
}

/// Numeric value of a sequence of ASCII digits, most significant first.
pub open spec fn digits_val(s: Seq<u8>) -> int
    decreases s.len(),
{
    if s.len() == 0 {
        0
    } else {
        digits_val(s.drop_last()) * 10 + (s.last() - 48)
    }
}

/// Length of the longest prefix of `s` that consists of ASCII digits.
pub open spec fn digit_prefix_len(s: Seq<u8>) -> int
    decreases s.len(),
{
    if s.len() == 0 || !is_digit(s[0]) {
        0
    } else {
        1 + digit_prefix_len(s.drop_first())
    }
}

/// Result of folding ASCII digits into a nonnegative value bounded by
/// `bound`, scanning left to right exactly as the parser does: an
/// overflow is detected as soon as the value so far, times ten, exceeds
/// the bound, and a non-digit byte before that point is an invalid digit.
pub open spec fn spec_parse_digits(s: Seq<u8>, bound: int) -> Result<int, ParseIntError> {
    if s.len() == 0 {
        Err(ParseIntError::Empty)
    } else {
        let k = digit_prefix_len(s);
        if k == s.len() {
            if digits_val(s) <= bound {
                Ok(digits_val(s))
            } else {
                Err(ParseIntError::Overflow)
            }
        } else if digits_val(s.take(k)) * 10 > bound {
            Err(ParseIntError::Overflow)
        } else {
            Err(ParseIntError::InvalidDigit)
        }
    }
}

/// Parse for an unsigned target with maximum `bound`: a leading minus is
/// an overflow, not a format error.
pub open spec fn spec_parse_unsigned(s: Seq<u8>, bound: int) -> Result<int, ParseIntError> {
    if s.len() > 0 && s[0] == 45 {
        Err(ParseIntError::Overflow)
    } else {
        spec_parse_digits(s, bound)
    }
}

/// Parse for a signed target with range `min..=max`: an optional leading
/// minus negates the digit value, and the magnitude bound is `-min` for
/// negative inputs and `max` otherwise.
pub open spec fn spec_parse_signed(s: Seq<u8>, min: int, max: int) -> Result<int, ParseIntError> {
    if s.len() > 0 && s[0] == 45 {
        match spec_parse_digits(s.skip(1), -min) {
            Ok(v) => Ok(-v),
            Err(e) => Err(e),
        }
    } else {
        spec_parse_digits(s, max)
    }
}

pub proof fn lemma_digits_val_nonneg(s: Seq<u8>)
    requires
        all_digits(s),
    ensures
        digits_val(s) >= 0,
        s.len() == 1 ==> digits_val(s) <= 9,
    decreases s.len(),
{
    if s.len() > 0 {
        assert(all_digits(s.drop_last())) by {
            assert(forall|i: int| 0 <= i < s.len() - 1 ==> #[trigger] s.drop_last()[i] == s[i]);
        }
        lemma_digits_val_nonneg(s.drop_last());
    }
}

/// A digit prefix never exceeds the whole digit string in value, and
/// leaves room for one more digit position.
pub proof fn lemma_digits_val_prefix(s: Seq<u8>, j: int)
    requires
        all_digits(s),
        0 <= j <= s.len(),
    ensures
        digits_val(s.take(j)) <= digits_val(s),
        j < s.len() ==> digits_val(s.take(j)) * 10 <= digits_val(s),
    decreases s.len() - j,
{
    assert(all_digits(s.take(j))) by {
        assert(forall|i: int| 0 <= i < j ==> #[trigger] s.take(j)[i] == s[i]);
    }
    if j == s.len() {
        assert(s.take(j) =~= s);
        lemma_digits_val_nonneg(s);
    } else {
        assert(s.take(j + 1).drop_last() =~= s.take(j));
        assert(s.take(j + 1).last() == s[j]);
        lemma_digits_val_nonneg(s.take(j));
        lemma_digits_val_prefix(s, j + 1);
    }
}

/// Characterization of `digit_prefix_len`: its bounds, that the prefix it
/// names is made of digits, and that it stops at a non-digit.
pub proof fn lemma_digit_prefix_len(s: Seq<u8>)
    ensures
        0 <= digit_prefix_len(s) <= s.len(),
        all_digits(s.take(digit_prefix_len(s))),
        digit_prefix_len(s) < s.len() ==> !is_digit(s[digit_prefix_len(s)]),
    decreases s.len(),
{
    if s.len() == 0 || !is_digit(s[0]) {
        assert(s.take(0) =~= Seq::<u8>::empty());
    } else {
        lemma_digit_prefix_len(s.drop_first());
        let k = digit_prefix_len(s.drop_first());
        assert(forall|i: int| 0 <= i < s.len() - 1 ==> #[trigger] s.drop_first()[i] == s[i + 1]);
        assert(all_digits(s.take(1 + k))) by {
            assert forall|i: int| 0 <= i < 1 + k implies is_digit(#[trigger] s.take(1 + k)[i]) by {
                assert(s.take(1 + k)[i] == s[i]);
                if i >= 1 {
                    assert(s.drop_first().take(k)[i - 1] == s.drop_first()[i - 1]);
                    assert(s.drop_first()[i - 1] == s[i]);
                    assert(is_digit(s.drop_first().take(k)[i - 1]));
                }
            }
        }
    }
}

/// `digit_prefix_len` is the unique `k` whose prefix is all digits and
/// which is either the whole string or stops at a non-digit.
pub proof fn lemma_digit_prefix_len_is(s: Seq<u8>, k: int)
    requires
        0 <= k <= s.len(),
        all_digits(s.take(k)),
        k < s.len() ==> !is_digit(s[k]),
    ensures
        digit_prefix_len(s) == k,
    decreases s.len(),
{
    if k == 0 {
    } else {
        assert(is_digit(s[0])) by {
            assert(s.take(k)[0] == s[0]);
        }
        assert(all_digits(s.drop_first().take(k - 1))) by {
            assert forall|i: int| 0 <= i < k - 1 implies is_digit(
                #[trigger] s.drop_first().take(k - 1)[i],
            ) by {
                assert(s.drop_first().take(k - 1)[i] == s.drop_first()[i]);
                assert(s.drop_first()[i] == s[i + 1]);
                assert(s.take(k)[i + 1] == s[i + 1]);
                assert(is_digit(s.take(k)[i + 1]));
            }
        }
        if k - 1 < s.len() - 1 {
            assert(s.drop_first()[k - 1] == s[k]);
        }
        lemma_digit_prefix_len_is(s.drop_first(), k - 1);
    }
}

/// Any all-digit prefix is no longer than the digit prefix.
pub proof fn lemma_digit_prefix_len_ge(s: Seq<u8>, j: int)
    requires
        0 <= j <= s.len(),
        all_digits(s.take(j)),
    ensures
        digit_prefix_len(s) >= j,
    decreases s.len(),
{
    if j == 0 {
        lemma_digit_prefix_len(s);
    } else {
        assert(is_digit(s[0])) by {
            assert(s.take(j)[0] == s[0]);
        }
        assert(all_digits(s.drop_first().take(j - 1))) by {
            assert forall|i: int| 0 <= i < j - 1 implies is_digit(
                #[trigger] s.drop_first().take(j - 1)[i],
            ) by {
                assert(s.drop_first().take(j - 1)[i] == s.drop_first()[i]);
                assert(s.drop_first()[i] == s[i + 1]);
                assert(s.take(j)[i + 1] == s[i + 1]);
                assert(is_digit(s.take(j)[i + 1]));
            }
        }
        lemma_digit_prefix_len_ge(s.drop_first(), j - 1);
    }
}

/// Folds digits of `bytes` from `start` to the end into a value bounded
/// by `bound`, exactly as `spec_parse_digits` describes.
fn parse_digits_u64(bytes: &[u8], start: usize, bound: u64) -> (r: Result<u64, ParseIntError>)
    requires
        start <= bytes@.len(),
    ensures
        ({
            let sp = spec_parse_digits(bytes@.skip(start as int), bound as int);
            match r {
                Ok(v) => sp == Ok::<int, ParseIntError>(v as int) && v <= bound,
                Err(e) => sp == Err::<int, ParseIntError>(e),
            }
        }),
{
    let ghost s = bytes@.skip(start as int);
    if start == bytes.len() {
        return Err(ParseIntError::Empty);
    }
    let mut acc: u64 = 0;
    let mut i: usize = start;
    while i < bytes.len()
        invariant
            start <= i <= bytes@.len(),
            s == bytes@.skip(start as int),
            s.len() == bytes@.len() - start,
            all_digits(s.take(i - start)),
            acc as int == digits_val(s.take(i - start)),
            acc <= bound,
        decreases bytes@.len() - i,
    {
        let b = bytes[i];
        proof {
            assert(s[i - start] == bytes@[i as int]);
        }
        if acc > bound / 10 {
            proof {
                assert(acc as int * 10 > bound as int) by (nonlinear_arith)
                    requires
                        acc as int > bound as int / 10,
                        bound >= 0,
                ;
                lemma_overflow_result(s, i - start, acc as int, bound as int);
            }
            return Err(ParseIntError::Overflow);
        }
        let acc10 = {
            proof {
                assert(acc as int * 10 <= bound as int) by (nonlinear_arith)
                    requires
                        acc as int <= bound as int / 10,
                        bound >= 0,
                ;
            }
            acc * 10
        };
        if !(b >= 48 && b <= 57) {
            proof {
                lemma_digit_prefix_len_is(s, i - start);
            }
            return Err(ParseIntError::InvalidDigit);
        }
        let d = b - 48;
        if (d as u64) > bound - acc10 {
            proof {
                assert(s.take(i - start + 1).drop_last() =~= s.take(i - start));
                assert(s.take(i - start + 1).last() == s[i - start]);
                assert(all_digits(s.take(i - start + 1))) by {
                    assert forall|j: int| 0 <= j < i - start + 1 implies is_digit(
                        #[trigger] s.take(i - start + 1)[j],
                    ) by {
                        assert(s.take(i - start + 1)[j] == s[j]);
                        if j < i - start {
                            assert(s.take(i - start)[j] == s[j]);
                            assert(is_digit(s.take(i - start)[j]));
                        }
                    }
                }
                lemma_overflow_result(s, i - start + 1, digits_val(s.take(i - start + 1)), bound as int);
            }
            return Err(ParseIntError::Overflow);
        }
        acc = acc10 + (d as u64);
        proof {
            assert(s.take(i - start + 1).drop_last() =~= s.take(i - start));
            assert(s.take(i - start + 1).last() == s[i - start]);
            assert(all_digits(s.take(i - start + 1))) by {
                assert forall|j: int| 0 <= j < i - start + 1 implies is_digit(
                    #[trigger] s.take(i - start + 1)[j],
                ) by {
                    assert(s.take(i - start + 1)[j] == s[j]);
                    if j < i - start {
                        assert(s.take(i - start)[j] == s[j]);
                        assert(is_digit(s.take(i - start)[j]));
                    }
                }
            }
        }
        i = i + 1;
    }
    proof {
        assert(s.take(i - start) =~= s);
        lemma_digit_prefix_len_is(s, s.len() as int);
    }
    Ok(acc)
}

/// When the value of an all-digit prefix of length `j >= 1`, times ten,
/// already exceeds the bound — or the prefix value itself does — the
/// scan ends in an overflow, whatever follows.
proof fn lemma_overflow_result(s: Seq<u8>, j: int, prefix_val: int, bound: int)
    requires
        0 < j <= s.len(),
        all_digits(s.take(j)),
        prefix_val == digits_val(s.take(j)),
        prefix_val * 10 > bound,
        j == s.len() ==> prefix_val > bound,
    ensures
        spec_parse_digits(s, bound) == Err::<int, ParseIntError>(ParseIntError::Overflow),
{
    lemma_digit_prefix_len(s);
    lemma_digit_prefix_len_ge(s, j);
    let k = digit_prefix_len(s);
    let t = s.take(k);
    assert(t.take(j) =~= s.take(j));
    lemma_digits_val_prefix(t, j);
    lemma_digits_val_nonneg(t);
    lemma_digits_val_nonneg(s.take(j));
    // digits_val(t) >= digits_val(s.take(j)) == prefix_val
    if k == s.len() {
        assert(t =~= s);
        if j < s.len() {
            lemma_digits_val_prefix(s, j);
            assert(digits_val(s) >= prefix_val * 10);
        } else {
            assert(s.take(j) =~= s);
            assert(digits_val(s) > bound);
        }
    } else {
        // digits_val(t) * 10 >= prefix_val * 10 > bound
        assert(digits_val(t) * 10 >= prefix_val * 10) by (nonlinear_arith)
            requires
                digits_val(t) >= prefix_val,
        ;
    }
}

/// Parses an unsigned 8-bit integer from ASCII-decimal bytes.
pub fn parse_u8(bytes: &[u8]) -> (r: Result<u8, ParseIntError>)
    ensures
        ({
            let sp = spec_parse_unsigned(bytes@, u8::MAX as int);
            match r {
                Ok(v) => sp == Ok::<int, ParseIntError>(v as int),
                Err(e) => sp == Err::<int, ParseIntError>(e),
            }
        }),
{
    if bytes.len() > 0 && bytes[0] == 45 {
        return Err(ParseIntError::Overflow);
    }
    proof {
        assert(bytes@.skip(0) =~= bytes@);
    }
    match parse_digits_u64(bytes, 0, 255) {
        Ok(v) => Ok(v as u8),
        Err(e) => Err(e),
    }
}

/// Parses an unsigned 16-bit integer from ASCII-decimal bytes.
pub fn parse_u16(bytes: &[u8]) -> (r: Result<u16, ParseIntError>)
    ensures
        ({
            let sp = spec_parse_unsigned(bytes@, u16::MAX as int);
            match r {
                Ok(v) => sp == Ok::<int, ParseIntError>(v as int),
                Err(e) => sp == Err::<int, ParseIntError>(e),
            }
        }),
{
    if bytes.len() > 0 && bytes[0] == 45 {
        return Err(ParseIntError::Overflow);
    }
    proof {
        assert(bytes@.skip(0) =~= bytes@);
    }
    match parse_digits_u64(bytes, 0, 65535) {
        Ok(v) => Ok(v as u16),
        Err(e) => Err(e),
    }
}

/// Parses an unsigned 64-bit integer from ASCII-decimal bytes.
pub fn parse_u64(bytes: &[u8]) -> (r: Result<u64, ParseIntError>)
    ensures
        ({
            let sp = spec_parse_unsigned(bytes@, u64::MAX as int);
            match r {
                Ok(v) => sp == Ok::<int, ParseIntError>(v as int),
                Err(e) => sp == Err::<int, ParseIntError>(e),
            }
        }),
{
    if bytes.len() > 0 && bytes[0] == 45 {
        return Err(ParseIntError::Overflow);
    }
    proof {
        assert(bytes@.skip(0) =~= bytes@);
    }
    parse_digits_u64(bytes, 0, u64::MAX)
}

/// Parses a `usize` from ASCII-decimal bytes.
pub fn parse_usize(bytes: &[u8]) -> (r: Result<usize, ParseIntError>)
    ensures
        ({
            let sp = spec_parse_unsigned(bytes@, usize::MAX as int);
            match r {
                Ok(v) => sp == Ok::<int, ParseIntError>(v as int),
                Err(e) => sp == Err::<int, ParseIntError>(e),
            }
        }),
{
    if bytes.len() > 0 && bytes[0] == 45 {
        return Err(ParseIntError::Overflow);
    }
    proof {
        assert(bytes@.skip(0) =~= bytes@);
    }
    match parse_digits_u64(bytes, 0, usize::MAX as u64) {
        Ok(v) => Ok(v as usize),
        Err(e) => Err(e),
    }
}

/// Parses a signed 8-bit integer from ASCII-decimal bytes with an
/// optional leading minus sign.
pub fn parse_i8(bytes: &[u8]) -> (r: Result<i8, ParseIntError>)
    ensures
        ({
            let sp = spec_parse_signed(bytes@, i8::MIN as int, i8::MAX as int);
            match r {
                Ok(v) => sp == Ok::<int, ParseIntError>(v as int),
                Err(e) => sp == Err::<int, ParseIntError>(e),
            }
        }),
{
    if bytes.len() > 0 && bytes[0] == 45 {
        match parse_digits_u64(bytes, 1, 128) {
            Ok(v) => {
                if v == 128 {
                    Ok(-128)
                } else {
                    Ok(-(v as i8))
                }
            }
            Err(e) => Err(e),
        }
    } else {
        proof {
            assert(bytes@.skip(0) =~= bytes@);
        }
        match parse_digits_u64(bytes, 0, 127) {
            Ok(v) => Ok(v as i8),
            Err(e) => Err(e),
        }
    }
}

/// Decimal ASCII representation of a nonnegative integer, with no
/// leading zeros beyond `"0"` itself.
pub open spec fn spec_digits(n: int) -> Seq<u8>
    decreases n,
{
    if n <= 9 {
        seq![(48 + n) as u8]
    } else {
        spec_digits(n / 10) + seq![(48 + n % 10) as u8]
    }
}

pub proof fn lemma_spec_digits_wf(n: int)
    requires
        n >= 0,
    ensures
        spec_digits(n).len() >= 1,
        all_digits(spec_digits(n)),
        digits_val(spec_digits(n)) == n,
    decreases n,
{
    if n <= 9 {
        assert(spec_digits(n) =~= seq![(48 + n) as u8]);
        assert(digits_val(seq![(48 + n) as u8].drop_last()) == 0) by {
            assert(seq![(48 + n) as u8].drop_last() =~= Seq::<u8>::empty());
        }
    } else {
        assert(0 <= n / 10 < n) by (nonlinear_arith)
            requires
                n > 9,
        ;
        lemma_spec_digits_wf(n / 10);
        let a = spec_digits(n / 10);
        let d = (48 + n % 10) as u8;
        assert(0 <= n % 10 <= 9) by (nonlinear_arith)
            requires
                n > 9,
        ;
        assert((a + seq![d]).drop_last() =~= a);
        assert((a + seq![d]).last() == d);
        assert(all_digits(a + seq![d])) by {
            assert(forall|i: int| 0 <= i < a.len() ==> #[trigger] (a + seq![d])[i] == a[i]);
        }
        assert(digits_val(a + seq![d]) == (n / 10) * 10 + (n % 10));
        assert((n / 10) * 10 + (n % 10) == n) by (nonlinear_arith);
    }
}

/// Parsing the decimal representation of `n` recovers `n` whenever `n`
/// is within the bound.
pub proof fn lemma_parse_spec_digits(n: int, bound: int)
    requires
        0 <= n <= bound,
    ensures
        spec_parse_unsigned(spec_digits(n), bound) == Ok::<int, ParseIntError>(n),
        spec_parse_digits(spec_digits(n), bound) == Ok::<int, ParseIntError>(n),
{
    lemma_spec_digits_wf(n);
    let s = spec_digits(n);
    assert(s.take(s.len() as int) =~= s);
    lemma_digit_prefix_len_is(s, s.len() as int);
    assert(is_digit(s[0]));
}

/// Formats an unsigned integer as decimal ASCII bytes.
pub fn format_u64(n: u64) -> (r: Vec<u8>)
    ensures
        r@ == spec_digits(n as int),
    decreases n,
{
    if n <= 9 {
        let mut v: Vec<u8> = Vec::new();
        v.push(48 + (n as u8));
        proof {
            assert(v@ =~= spec_digits(n as int));
        }
        v
    } else {
        let mut v = format_u64(n / 10);
        v.push(48 + ((n % 10) as u8));
        proof {
            assert(v@ =~= spec_digits(n as int));
        }
        v
    }
}

} // verus!
